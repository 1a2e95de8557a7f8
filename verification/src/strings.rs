//! Decoding of quoted, raw, and multiline string bodies.
use std::borrow::Cow;

use vstd::prelude::*;

use crate::ast::Literal;
use crate::cursor::{continues_with, newline_at, triple_at, CharClass, Cursor};
use crate::dialect::{disallowed_char, escape_meaning, identifier_char, newline_char, space_char, Dialect};
use crate::errors::{syntax_error_in, Error, ErrorKind};
use crate::lexer::{bom_len, failure_within, Lexer, TokenKind};
use crate::span::{span_within, Span};
use crate::text::{char_len, cow_str, push_char, same_text};

verus! {

/// Three double-quote characters delimiting multi-line string literals.
const TRIPLE_QUOTE: &'static str = "\"\"\"";

/// Result of decoding an escape sequence inside a string literal.
enum Escape {
    /// Decoded character produced by the escape sequence.
    Char(char),
    /// Whitespace escape that consumes following whitespace and newlines.
    Whitespace,
}

/// Delimiter configuration describing the quote style and hash count of a
/// string.
#[derive(Clone, Copy)]
pub struct Delimiter {
    /// Number of hashes in a raw string delimiter, or `None` for standard quoted
    /// strings.
    pub hashes: Option<usize>,
    /// Indicates whether the string uses triple-quote multi-line syntax.
    pub multiline: bool,
}

/// How many quotes a string with `delimiter` opens and closes with.
pub open spec fn quote_count(delimiter: Delimiter) -> nat {
    if delimiter.multiline {
        3
    } else {
        1
    }
}

/// How many hashes a string with `delimiter` closes with.
pub open spec fn hash_count(delimiter: Delimiter) -> nat {
    match delimiter.hashes {
        Some(count) => count as nat,
        None => 0,
    }
}

/// Whether the closing delimiter of a string with `delimiter` starts at
/// character `k` of `text`: its quotes, then its hashes.
pub open spec fn closes_at(text: Seq<char>, k: int, delimiter: Delimiter) -> bool {
    let quotes = quote_count(delimiter);
    let hashes = hash_count(delimiter);
    &&& 0 <= k
    &&& k + quotes + hashes <= text.len()
    &&& forall|i: int| k <= i < k + quotes ==> #[trigger] text[i] == '"'
    &&& forall|i: int| k + quotes <= i < k + quotes + hashes ==> #[trigger] text[i] == '#'
}

/// How many hexadecimal digits of `text` follow one another from `k` on.
pub open spec fn hex_run(text: Seq<char>, k: int) -> nat
    decreases text.len() - k,
{
    if 0 <= k < text.len() && hex_digit(text[k]) {
        1 + hex_run(text, k + 1)
    } else {
        0
    }
}

/// A run of `count` hexadecimal digits from `k` that ends at the end of the
/// text or before a character that is not one is the whole run.
proof fn lemma_hex_run(text: Seq<char>, k: int, count: int)
    requires
        0 <= k,
        0 <= count,
        k + count <= text.len(),
        forall|i: int| k <= i < k + count ==> #[trigger] hex_digit(text[i]),
        k + count == text.len() || !hex_digit(text[k + count]),
    ensures
        hex_run(text, k) == count,
    decreases count,
{
    if count > 0 {
        lemma_hex_run(text, k + 1, count - 1);
    }
}

/// The character a `\u{...}` escape whose backslash is at `k` stands for,
/// and where the escape ends: one to six hexadecimal digits of a scalar value
/// between the braces.
pub open spec fn unicode_at(text: Seq<char>, k: int) -> Option<(char, int)> {
    let digits_at = k + 3;
    let count = hex_run(text, digits_at);
    let value = hex_number(text.subrange(digits_at, digits_at + count));
    if continues_with(text, k + 1, "u{"@) && 1 <= count <= 6 && digits_at + count < text.len()
        && text[digits_at + count] == '}' && scalar_value(value) {
        Some((value as char, digits_at + count + 1))
    } else {
        None
    }
}

/// `prefix` followed by what a lenient read keeps on, with where the read
/// stops and whether a closing delimiter ended it.
pub open spec fn kept_then(prefix: Seq<char>, rest: (Seq<char>, int, bool)) -> (Seq<char>, int, bool) {
    (prefix + rest.0, rest.1, rest.2)
}

/// What a lenient read of a single-line quoted string body keeps from
/// character `k` of `text` on once it has met an escape, where the read stops
/// and whether the closing quote ended it: escapes are decoded, an invalid
/// escape or a disallowed character is skipped, and a v2 newline or the end
/// of the text ends the string unclosed.
pub open spec fn recovered_from(dialect: Dialect, text: Seq<char>, k: int) -> (Seq<char>, int, bool)
    decreases text.len() - k,
{
    if k < 0 || k >= text.len() {
        (Seq::empty(), text.len() as int, false)
    } else if text[k] == '"' {
        (Seq::empty(), k, true)
    } else if text[k] == '\\' {
        match escape_at(dialect, text, k) {
            Some((decoded, end)) => if k < end <= text.len() {
                kept_then(
                    match decoded {
                        Some(c) => seq![c],
                        None => Seq::empty(),
                    },
                    recovered_from(dialect, text, end),
                )
            } else {
                (Seq::empty(), k, false)
            },
            None => if k < escape_stop(text, k) <= text.len() {
                recovered_from(dialect, text, escape_stop(text, k))
            } else {
                (Seq::empty(), k, false)
            },
        }
    } else if dialect == Dialect::V2 && newline_char(dialect, text[k]) {
        (Seq::empty(), k, false)
    } else if disallowed_char(dialect, text[k]) {
        recovered_from(dialect, text, k + 1)
    } else {
        kept_then(seq![text[k]], recovered_from(dialect, text, k + 1))
    }
}

/// What a lenient read of a single-line quoted string body whose first
/// character is character `k` of `text` keeps, where the read stops and
/// whether the closing quote ended it: up to the first escape the value is the
/// text as written, a disallowed character included; from there on it is
/// what `recovered_from` keeps.
pub open spec fn lenient_quoted_from(dialect: Dialect, text: Seq<char>, k: int) -> (Seq<char>, int, bool)
    decreases text.len() - k,
{
    if k < 0 || k >= text.len() {
        (Seq::empty(), text.len() as int, false)
    } else if text[k] == '"' {
        (Seq::empty(), k, true)
    } else if text[k] == '\\' {
        recovered_from(dialect, text, k)
    } else if dialect == Dialect::V2 && newline_char(dialect, text[k]) {
        (Seq::empty(), k, false)
    } else {
        kept_then(seq![text[k]], lenient_quoted_from(dialect, text, k + 1))
    }
}

/// Where a lenient read of a single-line raw string body closed by
/// `delimiter`, from character `k` of `text` on, stops and whether its closing
/// delimiter ended it: a v2 newline or the end of the text ends it unclosed,
/// and a disallowed character is skipped over.
pub open spec fn lenient_raw_from(dialect: Dialect, text: Seq<char>, k: int, delimiter: Delimiter) -> (int, bool)
    decreases text.len() - k,
{
    if k < 0 || k >= text.len() {
        (text.len() as int, false)
    } else if closes_at(text, k, delimiter) {
        (k, true)
    } else if dialect == Dialect::V2 && newline_char(dialect, text[k]) {
        (k, false)
    } else {
        lenient_raw_from(dialect, text, k + 1, delimiter)
    }
}

/// Whether no backslash stands in `text` from `from` up to `to`.
pub open spec fn no_backslash(text: Seq<char>, from: int, to: int) -> bool {
    forall|i: int| from <= i < to ==> text[i] != '\\'
}

/// Whether a scan that has copied its body since `from` exactly when it met
/// a backslash did so up to `to`: for a raw body there is nothing to copy.
#[verifier::opaque]
spec fn copy_agrees(copying: bool, raw: bool, text: Seq<char>, from: int, to: int) -> bool {
    if copying {
        exists|i: int| from <= i < to && text[i] == '\\'
    } else {
        raw || no_backslash(text, from, to)
    }
}

/// A backslash at `k` makes a scan that has copied since reaching it agree
/// up to any later `to`.
proof fn lemma_copy_after_backslash(raw: bool, text: Seq<char>, from: int, k: int, to: int)
    requires
        from <= k < to,
        text[k] == '\\',
    ensures
        copy_agrees(true, raw, text, from, to),
{
    reveal(copy_agrees);
}

/// Reading on over characters that are not backslashes, or with a copy
/// already begun, keeps a scan in agreement.
proof fn lemma_copy_on(copying: bool, raw: bool, text: Seq<char>, from: int, k: int, to: int)
    requires
        copy_agrees(copying, raw, text, from, k),
        from <= k <= to,
        !copying && !raw ==> no_backslash(text, k, to),
    ensures
        copy_agrees(copying, raw, text, from, to),
{
    reveal(copy_agrees);
}

/// Where the read of an invalid `\u{...}` escape whose backslash is at `k`
/// stops: after the `u` when no `{` follows it, at the first character after
/// the hexadecimal digits that is not `}`, and otherwise after the `}`.
pub open spec fn unicode_stop(text: Seq<char>, k: int) -> int {
    let count = hex_run(text, k + 3);
    if !continues_with(text, k + 1, "u{"@) {
        k + 1
    } else if k + 3 + count < text.len() && text[k + 3 + count] == '}' {
        k + 4 + count
    } else {
        k + 3 + count
    }
}

/// Where the read of an invalid escape whose backslash is at `k` stops:
/// after the backslash at the end of the text, where an invalid unicode
/// escape stops, and otherwise after the character that follows the
/// backslash.
pub open spec fn escape_stop(text: Seq<char>, k: int) -> int {
    if k + 1 >= text.len() {
        k + 1
    } else if text[k + 1] == 'u' {
        unicode_stop(text, k)
    } else {
        k + 2
    }
}

/// Where the spaces and newlines of `text` from `k` on end.
pub open spec fn skip_filler(dialect: Dialect, text: Seq<char>, k: int) -> int
    decreases text.len() - k,
{
    if 0 <= k < text.len() && newline_at(dialect, text, k) > 0 {
        skip_filler(dialect, text, k + newline_at(dialect, text, k))
    } else if 0 <= k < text.len() && space_char(dialect, text[k]) {
        skip_filler(dialect, text, k + 1)
    } else {
        k
    }
}

/// What the escape whose backslash is at `k` stands for, a character or, for
/// a whitespace escape, nothing, and where it ends; `None` when it is not a
/// valid escape.
pub open spec fn escape_at(dialect: Dialect, text: Seq<char>, k: int) -> Option<(Option<char>, int)> {
    if k + 1 >= text.len() || k < 0 {
        None
    } else {
        let following = text[k + 1];
        match escape_meaning(dialect, following) {
            Some(decoded) => Some((Some(decoded), k + 2)),
            None => if following == 'u' {
                match unicode_at(text, k) {
                    Some((decoded, end)) => Some((Some(decoded), end)),
                    None => None,
                }
            } else if dialect == Dialect::V2 && (space_char(dialect, following) || newline_at(
                dialect,
                text,
                k + 1,
            ) > 0) {
                Some((None, skip_filler(dialect, text, k + 1)))
            } else {
                None
            },
        }
    }
}

/// `decoded` followed by the value of what is read on, with where it closes.
pub open spec fn prefixed(decoded: Seq<char>, rest: Option<(Seq<char>, int)>) -> Option<(Seq<char>, int)> {
    match rest {
        Some((value, close)) => Some((decoded + value, close)),
        None => None,
    }
}

/// The value of a single-line quoted string whose body starts at character
/// `k` of `text`, and where its closing quote is: escapes decoded, other
/// characters kept; `None` when a strict read of it fails, for an unclosed
/// string, an invalid escape, a newline in v2 or a disallowed character.
pub open spec fn quoted_from(dialect: Dialect, text: Seq<char>, k: int) -> Option<(Seq<char>, int)>
    decreases text.len() - k,
{
    if k < 0 || k >= text.len() {
        None
    } else if text[k] == '"' {
        Some((Seq::empty(), k))
    } else if text[k] == '\\' {
        match escape_at(dialect, text, k) {
            Some((decoded, end)) => if k < end <= text.len() {
                prefixed(
                    match decoded {
                        Some(c) => seq![c],
                        None => Seq::empty(),
                    },
                    quoted_from(dialect, text, end),
                )
            } else {
                None
            },
            None => None,
        }
    } else if dialect == Dialect::V2 && newline_char(dialect, text[k]) {
        None
    } else if disallowed_char(dialect, text[k]) {
        None
    } else {
        prefixed(seq![text[k]], quoted_from(dialect, text, k + 1))
    }
}

/// Where the body of a single-line raw string closed by `delimiter`, starting
/// at character `k` of `text`, ends: at the first closing delimiter; `None`
/// when a strict read of it fails, for an unclosed string, a newline in v2 or
/// a disallowed character.
pub open spec fn raw_from(dialect: Dialect, text: Seq<char>, k: int, delimiter: Delimiter) -> Option<int>
    decreases text.len() - k,
{
    if k < 0 || k >= text.len() {
        None
    } else if closes_at(text, k, delimiter) {
        Some(k)
    } else if dialect == Dialect::V2 && newline_char(dialect, text[k]) {
        None
    } else if disallowed_char(dialect, text[k]) {
        None
    } else {
        raw_from(dialect, text, k + 1, delimiter)
    }
}

/// How many `#` characters of `text` follow one another from `k` on.
pub open spec fn hash_run(text: Seq<char>, k: int) -> nat
    decreases text.len() - k,
{
    if 0 <= k < text.len() && text[k] == '#' {
        1 + hash_run(text, k + 1)
    } else {
        0
    }
}

/// A run of `count` hashes from `k` that ends at the end of the text or
/// before another character is the whole run.
pub(crate) proof fn lemma_hash_run(text: Seq<char>, k: int, count: int)
    requires
        0 <= k,
        0 <= count,
        k + count <= text.len(),
        forall|i: int| k <= i < k + count ==> #[trigger] text[i] == '#',
        k + count == text.len() || text[k + count] != '#',
    ensures
        hash_run(text, k) == count,
    decreases count,
{
    if count > 0 {
        lemma_hash_run(text, k + 1, count - 1);
    }
}

/// Whether `kind` is what the `#` keyword `word` reads as.
pub open spec fn hash_keyword<'src>(kind: TokenKind<'src>, word: Seq<char>) -> bool {
    match kind {
        TokenKind::Literal(Literal::Decimal(text)) => (word == "#-inf"@ || word == "#inf"@ || word
            == "#nan"@) && text@ == word,
        TokenKind::Literal(Literal::Bool(flag)) => word == (if flag {
            "#true"@
        } else {
            "#false"@
        }),
        TokenKind::Literal(Literal::Null) => word == "#null"@,
        _ => false,
    }
}

/// Whether a string token starts at character `i` of `text`: a quote, in v2
/// a `#`, in v1 an `r` before hashes and a quote.
pub open spec fn string_start(dialect: Dialect, text: Seq<char>, i: int) -> bool {
    &&& 0 <= i < text.len()
    &&& {
        ||| text[i] == '"'
        ||| dialect == Dialect::V2 && text[i] == '#'
        ||| dialect == Dialect::V1 && text[i] == 'r' && i + 1 + hash_run(text, i + 1) < text.len()
            && text[i + 1 + hash_run(text, i + 1)] == '"'
    }
}

/// Where the opening quote of a raw string token starting at character `i`
/// is: after the `#`s in v2, after the `r` and the `#`s in v1.
pub open spec fn raw_quote(text: Seq<char>, i: int) -> int {
    if text[i] == '#' {
        i + hash_run(text, i)
    } else {
        i + 1 + hash_run(text, i + 1)
    }
}

/// Whether `value` is what the string token from character `i` up to `j` of
/// `text` reads as: a quoted string its decoded body, a raw string the text
/// between its delimiters, a v2 multi-line string what `multiline_from` says.
pub open spec fn string_read(dialect: Dialect, text: Seq<char>, i: int, j: int, value: Seq<char>) -> bool {
    if text[i] == '"' {
        if dialect == Dialect::V2 && triple_at(text, i) {
            multiline_from(dialect, text, i + 3, Delimiter { hashes: None, multiline: true }) == Some(
                (value, j - 3),
            )
        } else {
            quoted_from(dialect, text, i + 1) == Some((value, j - 1))
        }
    } else {
        let quote = raw_quote(text, i);
        let hashes = if text[i] == '#' {
            hash_run(text, i)
        } else {
            hash_run(text, i + 1)
        };
        if dialect == Dialect::V2 && triple_at(text, quote) {
            multiline_from(
                dialect,
                text,
                quote + 3,
                Delimiter { hashes: Some(hashes as usize), multiline: true },
            ) == Some((value, j - 3 - hashes))
        } else {
            raw_from(
                dialect,
                text,
                quote + 1,
                Delimiter { hashes: Some(hashes as usize), multiline: false },
            ) == Some(j - 1 - hashes) && value == text.subrange(quote + 1, j - 1 - hashes)
        }
    }
}

/// Whether `value` is what a name or string token from character `i` up to
/// `j` of `text` reads as: a string token its string, a bare word the word
/// itself.
pub open spec fn name_read(dialect: Dialect, text: Seq<char>, i: int, j: int, value: Seq<char>) -> bool {
    if string_start(dialect, text, i) {
        string_read(dialect, text, i, j, value)
    } else {
        value == text.subrange(i, j)
    }
}

/// The value of a hexadecimal digit character.
pub open spec fn hex_value(c: char) -> nat {
    if '0' <= c && c <= '9' {
        (c as nat - '0' as nat) as nat
    } else if 'a' <= c && c <= 'f' {
        (c as nat - 'a' as nat + 10) as nat
    } else {
        (c as nat - 'A' as nat + 10) as nat
    }
}

/// Whether `c` is an ASCII hexadecimal digit.
pub open spec fn hex_digit(c: char) -> bool {
    ('0' <= c && c <= '9') || ('a' <= c && c <= 'f') || ('A' <= c && c <= 'F')
}

/// The number the hexadecimal digits `digits` spell.
pub open spec fn hex_number(digits: Seq<char>) -> nat
    decreases digits.len(),
{
    if digits.len() == 0 {
        0
    } else {
        hex_number(digits.drop_last()) * 16 + hex_value(digits.last())
    }
}

/// Whether `value` is a Unicode scalar value.
pub open spec fn scalar_value(value: nat) -> bool {
    value <= 0x10FFFF && !(0xD800 <= value && value <= 0xDFFF)
}

/// `char::from_u32`: the character with scalar value `value`, when `value`
/// is a Unicode scalar value, and `None` otherwise.
#[verifier::external_body]
pub(crate) fn char_from_scalar(value: u32) -> (found: Option<char>)
    ensures
        found is Some <==> scalar_value(value as nat),
        found matches Some(c) ==> c as nat == value,
{
    char::from_u32(value)
}

/// Whether `c` is an ASCII hexadecimal digit.
pub(crate) fn is_hex_digit(c: char) -> (digit: bool)
    ensures
        digit == hex_digit(c),
{
    ('0' <= c && c <= '9') || ('a' <= c && c <= 'f') || ('A' <= c && c <= 'F')
}

/// The value of one hexadecimal digit.
pub(crate) fn hex_digit_value(c: char) -> (value: u32)
    requires
        hex_digit(c),
    ensures
        value == hex_value(c),
        value < 16,
{
    if '0' <= c && c <= '9' {
        (c as u32) - ('0' as u32)
    } else if 'a' <= c && c <= 'f' {
        (c as u32) - ('a' as u32) + 10
    } else {
        (c as u32) - ('A' as u32) + 10
    }
}

impl<'src> Lexer<'src> {
    /// Scans a double-quoted string literal or KDL v2 multi-line string.
    pub(crate) fn quoted(&mut self) -> (result: Result<TokenKind<'src>, Error>)
        requires
            old(self).wf(),
            old(self).cursor.at() < old(self).text().len(),
            old(self).text()[old(self).cursor.at()] == '"',
        ensures
            final(self).moved_on(*old(self)),
            failure_within(result, old(self).text()),
            result matches Ok(kind) ==> final(self).cursor.at() > old(self).cursor.at() && !(
            kind is Eof),
            result matches Ok(kind) ==> kind is String,
            final(self).clean() && !(old(self).cursor.dialect == Dialect::V2 && triple_at(
                old(self).text(),
                old(self).cursor.at() as int,
            )) ==> match quoted_from(
                old(self).cursor.dialect,
                old(self).text(),
                old(self).cursor.at() + 1,
            ) {
                Some((value, close)) => result matches Ok(TokenKind::String(found)) && found@ == value
                    && final(self).cursor.at() == close + 1,
                None => result is Err,
            },
            final(self).clean() && old(self).cursor.dialect == Dialect::V2 && triple_at(
                old(self).text(),
                old(self).cursor.at() as int,
            ) ==> match multiline_from(
                Dialect::V2,
                old(self).text(),
                old(self).cursor.at() + 3,
                Delimiter { hashes: None, multiline: true },
            ) {
                Some((value, close)) => result matches Ok(TokenKind::String(found)) && found@ == value
                    && final(self).cursor.at() == close + 3,
                None => result is Err,
            },
    {
        let start = self.cursor;
        proof {
            reveal_strlit("\"\"\"");
        }
        let multiline = self.dialect() == Dialect::V2 && self.cursor.eat(TRIPLE_QUOTE);
        proof {
            let text = old(self).text();
            let at = old(self).cursor.at() as int;
            if !multiline && self.cursor.dialect == Dialect::V2 && triple_at(text, at) {
                assert(text.subrange(at, at + 3) =~= "\"\"\""@);
            }
            if multiline {
                assert(text.subrange(at, at + 3)[0] == text[at]);
                assert(text.subrange(at, at + 3)[1] == text[at + 1]);
                assert(text.subrange(at, at + 3)[2] == text[at + 2]);
                assert(triple_at(text, at));
            }
        }
        if !multiline {
            self.cursor.bump();
        }
        self.string_body(start, Delimiter { hashes: None, multiline })
    }

    /// Scans a raw string literal or a hash-prefixed keyword like `#true` or
    /// `#null`.
    pub(crate) fn hash(&mut self) -> (result: Result<TokenKind<'src>, Error>)
        requires
            old(self).wf(),
            old(self).cursor.at() < old(self).text().len(),
            old(self).text()[old(self).cursor.at()] == '#',
        ensures
            final(self).moved_on(*old(self)),
            failure_within(result, old(self).text()),
            result matches Ok(kind) ==> final(self).cursor.at() > old(self).cursor.at() && !(
            kind is Eof),
            ({
                let text = old(self).text();
                let at = old(self).cursor.at() as int;
                let hashes = hash_run(text, at);
                let quote = at + hashes;
                if quote < text.len() && text[quote] == '"' {
                    &&& result matches Ok(kind) ==> kind is String
                    &&& final(self).clean() && !triple_at(text, quote) ==> match raw_from(
                        old(self).cursor.dialect,
                        text,
                        quote + 1,
                        Delimiter { hashes: Some(hashes as usize), multiline: false },
                    ) {
                        Some(close) => result matches Ok(TokenKind::String(found)) && found@
                            == text.subrange(quote + 1, close) && final(self).cursor.at() == close
                            + 1 + hashes,
                        None => result is Err,
                    }
                    &&& final(self).clean() && triple_at(text, quote) ==> match multiline_from(
                        old(self).cursor.dialect,
                        text,
                        quote + 3,
                        Delimiter { hashes: Some(hashes as usize), multiline: true },
                    ) {
                        Some((value, close)) => result matches Ok(TokenKind::String(found)) && found@
                            == value && final(self).cursor.at() == close + 3 + hashes,
                        None => result is Err,
                    }
                } else {
                    result matches Ok(kind) ==> hash_keyword(
                        kind,
                        text.subrange(at, final(self).cursor.at() as int),
                    ) && (final(self).cursor.at() == text.len() || !identifier_char(
                        old(self).cursor.dialect,
                        text[final(self).cursor.at() as int],
                    ))
                }
            }),
    {
        let start = self.cursor;
        let hash_count = self.cursor.eat_while(CharClass::Hash);
        proof {
            let text = old(self).text();
            let at = old(self).cursor.at() as int;
            assert forall|i: int| at <= i < at + hash_count implies #[trigger] text[i] == '#' by {
                assert(crate::cursor::in_class(CharClass::Hash, start.dialect, text[i]));
            }
            if at + hash_count < text.len() {
                assert(!crate::cursor::in_class(CharClass::Hash, start.dialect, text[at + hash_count]));
            }
            lemma_hash_run(text, at, hash_count as int);
            reveal_strlit("\"");
            reveal_strlit("\"\"\"");
        }
        let quoted = self.cursor.starts_with("\"");
        proof {
            let text = old(self).text();
            let quote = old(self).cursor.at() + hash_count;
            if quoted {
                assert(text.subrange(quote, quote + 1)[0] == text[quote]);
            } else if quote < text.len() && text[quote] == '"' {
                assert(text.subrange(quote, quote + 1) =~= "\""@);
            }
        }
        if quoted {
            let ghost quote = self.cursor.at() as int;
            let multiline = self.cursor.eat(TRIPLE_QUOTE);
            proof {
                let text = old(self).text();
                if !multiline && triple_at(text, quote) {
                    assert(text.subrange(quote, quote + 3) =~= "\"\"\""@);
                }
                if multiline {
                    assert(text.subrange(quote, quote + 3)[0] == text[quote]);
                    assert(text.subrange(quote, quote + 3)[1] == text[quote + 1]);
                    assert(text.subrange(quote, quote + 3)[2] == text[quote + 2]);
                    assert(triple_at(text, quote));
                }
            }
            if !multiline {
                self.cursor.bump();
            }
            let delimiter = Delimiter { hashes: Some(hash_count), multiline };
            return self.string_body(start, delimiter);
        }
        if hash_count != 1 {
            return Err(self.error_since(start, "unexpected `#`"));
        }
        proof {
            reveal_strlit("#-inf");
            reveal_strlit("#inf");
            reveal_strlit("#nan");
            reveal_strlit("#true");
            reveal_strlit("#false");
            reveal_strlit("#null");
        }
        self.cursor = start;
        if self.cursor.eat("#-inf") {
            self.reject_trailing_identifier(start, "invalid keyword")?;
            return Ok(TokenKind::Literal(Literal::Decimal(Cow::Borrowed("#-inf"))));
        }
        self.cursor = start;
        if self.cursor.eat("#inf") {
            self.reject_trailing_identifier(start, "invalid keyword")?;
            return Ok(TokenKind::Literal(Literal::Decimal(Cow::Borrowed("#inf"))));
        }
        self.cursor = start;
        if self.cursor.eat("#nan") {
            self.reject_trailing_identifier(start, "invalid keyword")?;
            return Ok(TokenKind::Literal(Literal::Decimal(Cow::Borrowed("#nan"))));
        }
        self.cursor = start;
        if self.cursor.eat("#true") {
            self.reject_trailing_identifier(start, "invalid keyword")?;
            return Ok(TokenKind::Literal(Literal::Bool(true)));
        }
        self.cursor = start;
        if self.cursor.eat("#false") {
            self.reject_trailing_identifier(start, "invalid keyword")?;
            return Ok(TokenKind::Literal(Literal::Bool(false)));
        }
        self.cursor = start;
        if self.cursor.eat("#null") {
            self.reject_trailing_identifier(start, "invalid keyword")?;
            return Ok(TokenKind::Literal(Literal::Null));
        }
        Err(Error::syntax(start.span_here(1), "unexpected `#`"))
    }

    /// Returns a cursor advanced past matching closing delimiters, or `None` if
    /// they do not match.
    fn closing(&self, delimiter: Delimiter) -> (finish: Option<Cursor<'src>>)
        requires
            self.wf(),
        ensures
            finish is Some <==> closes_at(self.text(), self.cursor.at() as int, delimiter),
            finish matches Some(probe) ==> {
                &&& probe.wf()
                &&& probe.same_text(self.cursor)
                &&& probe.at() > self.cursor.at()
                &&& probe.at() == self.cursor.at() + quote_count(delimiter) + hash_count(delimiter)
                &&& delimiter.multiline ==> triple_at(self.text(), self.cursor.at())
            },
    {
        let mut probe = self.cursor;
        if probe.peek() != Some('"') {
            return None;
        }
        let quotes = if delimiter.multiline {
            TRIPLE_QUOTE
        } else {
            "\""
        };
        proof {
            reveal_strlit("\"\"\"");
            reveal_strlit("\"");
        }
        let ghost at = self.cursor.at() as int;
        let ghost text = self.text();
        if !probe.eat(quotes) {
            proof {
                if closes_at(text, at, delimiter) {
                    if delimiter.multiline {
                        assert(text.subrange(at, at + 3) =~= "\"\"\""@);
                    } else {
                        assert(text.subrange(at, at + 1) =~= "\""@);
                    }
                }
            }
            return None;
        }
        proof {
            if delimiter.multiline {
                assert(text.subrange(at, at + 3)[1] == text[at + 1]);
                assert(text.subrange(at, at + 3)[2] == text[at + 2]);
            }
            assert forall|i: int| at <= i < at + quote_count(delimiter) implies #[trigger] text[i] == '"' by {
                assert(text.subrange(at, at + quote_count(delimiter))[i - at] == text[i]);
            }
        }
        let wanted = match delimiter.hashes {
            Some(count) => count,
            None => 0,
        };
        let mut matched: usize = 0;
        proof {
            reveal_strlit("#");
        }
        while matched < wanted
            invariant
                probe.wf(),
                probe.same_text(self.cursor),
                probe.at() > self.cursor.at(),
                matched <= wanted,
                wanted == hash_count(delimiter),
                text == self.text(),
                probe.chars() == text,
                at == self.cursor.at(),
                probe.at() == at + quote_count(delimiter) + matched,
                at + quote_count(delimiter) <= text.len(),
                forall|i: int| at <= i < at + quote_count(delimiter) ==> #[trigger] text[i] == '"',
                forall|i: int|
                    at + quote_count(delimiter) <= i < at + quote_count(delimiter) + matched
                        ==> #[trigger] text[i] == '#',
            decreases wanted - matched,
        {
            proof {
                reveal_strlit("#");
            }
            if !probe.eat("#") {
                proof {
                    let k = at + quote_count(delimiter) + matched;
                    if closes_at(text, at, delimiter) {
                        assert(text[k] == '#');
                        assert(text.subrange(k, k + 1) =~= "#"@);
                    }
                }
                return None;
            }
            proof {
                let k = at + quote_count(delimiter) + matched;
                assert(text.subrange(k, k + 1)[0] == text[k]);
            }
            matched += 1;
        }
        Some(probe)
    }

    /// Scans the body of a string literal up to its closing delimiter and
    /// applies any dedenting.
    #[verifier::rlimit(100)]
    pub(crate) fn string_body(&mut self, start: Cursor<'src>, delimiter: Delimiter) -> (result:
        Result<TokenKind<'src>, Error>)
        requires
            old(self).wf(),
            start.wf(),
            start.same_text(old(self).cursor),
            start.at() < old(self).cursor.at(),
        ensures
            final(self).moved_on(*old(self)),
            failure_within(result, old(self).text()),
            result matches Ok(kind) ==> kind is String,
            !delimiter.multiline && final(self).clean() && delimiter.hashes is None ==> match quoted_from(
                old(self).cursor.dialect,
                old(self).text(),
                old(self).cursor.at() as int,
            ) {
                Some((value, close)) => result matches Ok(TokenKind::String(found)) && found@ == value
                    && final(self).cursor.at() == close + 1,
                None => result is Err,
            },
            !delimiter.multiline && final(self).clean() && delimiter.hashes is Some ==> match raw_from(
                old(self).cursor.dialect,
                old(self).text(),
                old(self).cursor.at() as int,
                delimiter,
            ) {
                Some(close) => result matches Ok(TokenKind::String(found)) && found@ == old(
                    self,
                ).text().subrange(old(self).cursor.at() as int, close) && final(self).cursor.at()
                    == close + 1 + hash_count(delimiter),
                None => result is Err,
            },
            !delimiter.multiline && old(self).lenient && delimiter.hashes is None ==> ({
                let read = lenient_quoted_from(
                    old(self).cursor.dialect,
                    old(self).text(),
                    old(self).cursor.at() as int,
                );
                &&& result matches Ok(TokenKind::String(found)) && found@ == read.0
                &&& final(self).cursor.at() == if read.2 {
                    read.1 + 1
                } else {
                    read.1
                }
                &&& final(self).errors@.len() == old(self).errors@.len() <==> quoted_from(
                    old(self).cursor.dialect,
                    old(self).text(),
                    old(self).cursor.at() as int,
                ) is Some
            }),
            !delimiter.multiline && old(self).lenient && delimiter.hashes is Some ==> ({
                let read = lenient_raw_from(
                    old(self).cursor.dialect,
                    old(self).text(),
                    old(self).cursor.at() as int,
                    delimiter,
                );
                &&& result matches Ok(TokenKind::String(found)) && found@ == old(self).text().subrange(
                    old(self).cursor.at() as int,
                    read.0,
                )
                &&& final(self).cursor.at() == if read.1 {
                    read.0 + 1 + hash_count(delimiter)
                } else {
                    read.0
                }
                &&& final(self).errors@.len() == old(self).errors@.len() <==> raw_from(
                    old(self).cursor.dialect,
                    old(self).text(),
                    old(self).cursor.at() as int,
                    delimiter,
                ) is Some
            }),
            delimiter.multiline && old(self).lenient ==> match lenient_multiline_from(
                old(self).cursor.dialect,
                old(self).text(),
                old(self).cursor.at() as int,
                delimiter,
            ) {
                Some((value, stop, closed)) => result matches Ok(TokenKind::String(found)) && found@
                    == value && final(self).cursor.at() == if closed {
                    stop + 3 + hash_count(delimiter)
                } else {
                    stop
                },
                None => result is Err,
            },
            delimiter.multiline && old(self).lenient && result is Ok ==> (final(self).errors@.len()
                == old(self).errors@.len() <==> multiline_from(
                old(self).cursor.dialect,
                old(self).text(),
                old(self).cursor.at() as int,
                delimiter,
            ) is Some),
            !delimiter.multiline ==> (result matches Ok(TokenKind::String(value)) ==> (value matches Cow::Borrowed(_)
                <==> (delimiter.hashes is Some || no_backslash(
                old(self).text(),
                old(self).cursor.at() as int,
                final(self).cursor.at() as int,
            )))),
            delimiter.multiline && final(self).clean() ==> match multiline_from(
                old(self).cursor.dialect,
                old(self).text(),
                old(self).cursor.at() as int,
                delimiter,
            ) {
                Some((value, close)) => result matches Ok(TokenKind::String(found)) && found@ == value
                    && final(self).cursor.at() == close + 3 + hash_count(delimiter),
                None => result is Err,
            },
    {
        let dialect = self.dialect();
        let ghost text = self.text();
        let ghost opening = newline_at(dialect, text, self.cursor.at() as int);
        if delimiter.multiline && !self.cursor.eat_newline() {
            let length = match self.cursor.peek() {
                Some(character) => char_len(character),
                None => 0,
            };
            let error = Error::syntax(
                self.cursor.span_here(length),
                "multi-line string must start with newline",
            );
            self.fail(error)?;
        }
        let content_start = self.cursor;
        let mut copy = String::new();
        let mut copying = false;
        let mut escaped = false;
        let mut closing_finish: Option<Cursor<'src>> = None;
        proof {
            reveal(copy_agrees);
        }
        loop
            invariant_except_break
                self.moved_on(*old(self)),
                self.cursor.dialect == dialect,
                start.wf(),
                start.same_text(self.cursor),
                start.at() < old(self).cursor.at(),
                content_start.wf(),
                content_start.same_text(self.cursor),
                content_start.at() <= self.cursor.at(),
                closing_finish is None,
                text == old(self).text(),
                copy_agrees(
                    copying,
                    delimiter.hashes is Some,
                    text,
                    content_start.at() as int,
                    self.cursor.at() as int,
                ),
                delimiter.multiline ==> content_start.at() == old(self).cursor.at() + opening,
                delimiter.multiline && old(self).lenient ==> lenient_gathered_from(
                    dialect,
                    text,
                    content_start.at() as int,
                    delimiter,
                ) == if copying {
                    regathered_then(
                        copy@,
                        escaped,
                        regathered_from(dialect, text, self.cursor.at() as int, delimiter),
                    )
                } else {
                    regathered_then(
                        text.subrange(content_start.at() as int, self.cursor.at() as int),
                        false,
                        lenient_gathered_from(dialect, text, self.cursor.at() as int, delimiter),
                    )
                },
                delimiter.multiline && !self.quiet_since(*old(self)) ==> multiline_from(
                    dialect,
                    text,
                    old(self).cursor.at() as int,
                    delimiter,
                ) is None,
                !delimiter.multiline && old(self).lenient && delimiter.hashes is None ==> lenient_quoted_from(
                    dialect,
                    text,
                    content_start.at() as int,
                ) == if copying {
                    kept_then(copy@, recovered_from(dialect, text, self.cursor.at() as int))
                } else {
                    kept_then(
                        text.subrange(content_start.at() as int, self.cursor.at() as int),
                        lenient_quoted_from(dialect, text, self.cursor.at() as int),
                    )
                },
                !delimiter.multiline && old(self).lenient && delimiter.hashes is Some ==> lenient_raw_from(
                    dialect,
                    text,
                    content_start.at() as int,
                    delimiter,
                ) == lenient_raw_from(dialect, text, self.cursor.at() as int, delimiter),
                !delimiter.multiline && !self.quiet_since(*old(self)) ==> (delimiter.hashes is None
                    ==> quoted_from(dialect, text, content_start.at() as int) is None) && (
                delimiter.hashes is Some ==> raw_from(
                    dialect,
                    text,
                    content_start.at() as int,
                    delimiter,
                ) is None),
                !delimiter.multiline ==> content_start == old(self).cursor,
                opening == newline_at(dialect, text, old(self).cursor.at() as int),
                delimiter.multiline && self.quiet_since(*old(self)) ==> opening > 0 && content_start.at() == old(self).cursor.at() + opening,
                !copying ==> !escaped,
                delimiter.multiline && self.quiet_since(*old(self)) ==> gathered_from(dialect, text, content_start.at() as int, delimiter)
                    == gathered_then(
                    if copying {
                        copy@
                    } else {
                        text.subrange(content_start.at() as int, self.cursor.at() as int)
                    },
                    escaped,
                    gathered_from(dialect, text, self.cursor.at() as int, delimiter),
                ),
                copying ==> delimiter.hashes is None,
                !delimiter.multiline && self.quiet_since(*old(self)) && delimiter.hashes is None ==> quoted_from(
                    dialect,
                    text,
                    content_start.at() as int,
                ) == prefixed(
                    if copying {
                        copy@
                    } else {
                        text.subrange(content_start.at() as int, self.cursor.at() as int)
                    },
                    quoted_from(dialect, text, self.cursor.at() as int),
                ),
                !delimiter.multiline && self.quiet_since(*old(self)) && delimiter.hashes is Some ==> raw_from(
                    dialect,
                    text,
                    content_start.at() as int,
                    delimiter,
                ) == raw_from(dialect, text, self.cursor.at() as int, delimiter),
            ensures
                self.moved_on(*old(self)),
                content_start.at() <= self.cursor.at(),
                closing_finish matches Some(probe) ==> {
                    &&& probe.wf()
                    &&& probe.same_text(self.cursor)
                    &&& probe.at() > self.cursor.at()
                    &&& delimiter.multiline ==> triple_at(self.text(), self.cursor.at())
                    &&& probe.at() == self.cursor.at() + quote_count(delimiter) + hash_count(delimiter)
                    &&& closes_at(text, self.cursor.at() as int, delimiter)
                },
                !delimiter.multiline && self.quiet_since(*old(self)) ==> closing_finish is Some,
                delimiter.multiline && self.quiet_since(*old(self)) ==> closing_finish is Some,
                copy_agrees(
                    copying,
                    delimiter.hashes is Some,
                    text,
                    content_start.at() as int,
                    self.cursor.at() as int,
                ),
                delimiter.multiline ==> content_start.at() == old(self).cursor.at() + opening,
                delimiter.multiline && old(self).lenient ==> lenient_gathered_from(
                    dialect,
                    text,
                    content_start.at() as int,
                    delimiter,
                ) == (
                    if copying {
                        copy@
                    } else {
                        text.subrange(content_start.at() as int, self.cursor.at() as int)
                    },
                    self.cursor.at() as int,
                    closing_finish is Some,
                    escaped,
                ),
                delimiter.multiline && !self.quiet_since(*old(self)) ==> multiline_from(
                    dialect,
                    text,
                    old(self).cursor.at() as int,
                    delimiter,
                ) is None,
                !delimiter.multiline && old(self).lenient && delimiter.hashes is None ==> lenient_quoted_from(
                    dialect,
                    text,
                    content_start.at() as int,
                ) == (
                    if copying {
                        copy@
                    } else {
                        text.subrange(content_start.at() as int, self.cursor.at() as int)
                    },
                    self.cursor.at() as int,
                    closing_finish is Some,
                ),
                !delimiter.multiline && old(self).lenient && delimiter.hashes is Some ==> lenient_raw_from(
                    dialect,
                    text,
                    content_start.at() as int,
                    delimiter,
                ) == (self.cursor.at() as int, closing_finish is Some),
                !delimiter.multiline && !self.quiet_since(*old(self)) ==> (delimiter.hashes is None
                    ==> quoted_from(dialect, text, content_start.at() as int) is None) && (
                delimiter.hashes is Some ==> raw_from(
                    dialect,
                    text,
                    content_start.at() as int,
                    delimiter,
                ) is None),
                text == old(self).text(),
                !delimiter.multiline ==> content_start == old(self).cursor,

                opening == newline_at(dialect, text, old(self).cursor.at() as int),
                delimiter.multiline && self.quiet_since(*old(self)) ==> opening > 0 && content_start.at() == old(self).cursor.at() + opening,
                !copying ==> !escaped,
                delimiter.multiline && self.quiet_since(*old(self)) ==> gathered_from(dialect, text, content_start.at() as int, delimiter)
                    == gathered_then(
                    if copying {
                        copy@
                    } else {
                        text.subrange(content_start.at() as int, self.cursor.at() as int)
                    },
                    escaped,
                    gathered_from(dialect, text, self.cursor.at() as int, delimiter),
                ),
                !delimiter.multiline && self.quiet_since(*old(self)) && delimiter.hashes is None ==> quoted_from(
                    dialect,
                    text,
                    content_start.at() as int,
                ) == prefixed(
                    if copying {
                        copy@
                    } else {
                        text.subrange(content_start.at() as int, self.cursor.at() as int)
                    },
                    quoted_from(dialect, text, self.cursor.at() as int),
                ),
                !delimiter.multiline && self.quiet_since(*old(self)) && delimiter.hashes is Some ==> raw_from(
                    dialect,
                    text,
                    content_start.at() as int,
                    delimiter,
                ) == raw_from(dialect, text, self.cursor.at() as int, delimiter),
                copying ==> delimiter.hashes is None,
            decreases self.text().len() - self.cursor.at(),
        {
            if let Some(finish) = self.closing(delimiter) {
                closing_finish = Some(finish);
                break;
            }
            let character = match self.cursor.peek() {
                Some(character) => character,
                None => {
                    proof {
                        assert(gathered_from(dialect, text, self.cursor.at() as int, delimiter) is None);
                    }
                    let error = self.error_since(start, "unterminated string");
                    self.fail(error)?;
                    break;
                },
            };
            if character == '\\' && delimiter.hashes.is_none() {
                let escape_start = self.cursor;
                let ghost k = self.cursor.at() as int;
                if !copying {
                    copy = escape_start.slice_from(content_start).to_owned();
                    copying = true;
                }
                match self.escape() {
                    Ok(Escape::Whitespace) => {},
                    Ok(Escape::Char(decoded)) => {
                        if !delimiter.multiline {
                            push_char(&mut copy, decoded);
                        } else {
                            escaped = true;
                            copy.append(self.cursor.slice_from(escape_start));
                        }
                    },
                    Err(error) => {
                        proof {
                            assert(gathered_from(dialect, text, k, delimiter) is None);
                        }
                        self.fail(error)?;
                    },
                }
                proof {
                    lemma_copy_after_backslash(
                        delimiter.hashes is Some,
                        text,
                        content_start.at() as int,
                        k,
                        self.cursor.at() as int,
                    );
                }
                continue;
            }
            if !delimiter.multiline && dialect == Dialect::V2 && dialect.is_newline(character) {
                let error = self.error_since(start, "unterminated string");
                self.fail(error)?;
                break;
            }
            let ghost k = self.cursor.at() as int;
            if dialect.is_disallowed(character) {
                let error = self.error_at_char(character, "disallowed code point in string");
                self.fail(error)?;
                self.cursor.bump();
                proof {
                    lemma_copy_on(
                        copying,
                        delimiter.hashes is Some,
                        text,
                        content_start.at() as int,
                        k,
                        self.cursor.at() as int,
                    );
                }
                continue;
            }
            self.cursor.bump();
            proof {
                lemma_copy_on(
                    copying,
                    delimiter.hashes is Some,
                    text,
                    content_start.at() as int,
                    k,
                    self.cursor.at() as int,
                );
            }
            if copying {
                push_char(&mut copy, character);
            }
        }
        let raw_text = self.cursor.slice_from(content_start);
        let value: Cow<'src, str> = if delimiter.multiline {
            let closing_length: usize = if closing_finish.is_some() {
                3
            } else {
                0
            };
            let closing = self.cursor.span_here(closing_length);
            let dedent = if copying {
                let body = MultilineBody { text: copy.as_str(), closing };
                match body.dedent() {
                    Ok(text) => Ok(Cow::Owned(cow_into_string(text))),
                    Err(undented) => Err(undented),
                }
            } else {
                let body = MultilineBody { text: raw_text, closing };
                body.dedent()
            };
            let dedented: Cow<'src, str> = match dedent {
                Ok(text) => text,
                Err(undented) => {
                    self.fail(undented.error)?;
                    Cow::Owned(undented.value)
                },
            };
            if escaped {
                Cow::Owned(MultilineBody::unescape(closing, cow_str(&dedented))?)
            } else {
                dedented
            }
        } else if copying {
            Cow::Owned(copy)
        } else {
            Cow::Borrowed(raw_text)
        };
        let ghost stop = self.cursor.at() as int;
        if let Some(finish) = closing_finish {
            self.cursor = finish;
        }
        proof {
            reveal(copy_agrees);
            if !delimiter.multiline && closing_finish is Some {
                assert forall|i: int| stop <= i < self.cursor.at() implies text[i] != '\\' by {
                    if i < stop + quote_count(delimiter) {
                        assert(text[i] == '"');
                    } else {
                        assert(text[i] == '#');
                    }
                }
            }
        }
        Ok(TokenKind::String(value))
    }

    /// Scans a backslash escape sequence and returns either a character or a
    /// whitespace skip.
    fn escape(&mut self) -> (result: Result<Escape, Error>)
        requires
            old(self).wf(),
            old(self).cursor.at() < old(self).text().len(),
            old(self).text()[old(self).cursor.at()] == '\\',
        ensures
            final(self).moved_on(*old(self)),
            final(self).errors == old(self).errors,
            final(self).cursor.at() > old(self).cursor.at(),
            failure_within(result, old(self).text()),
            match escape_at(old(self).cursor.dialect, old(self).text(), old(self).cursor.at() as int) {
                Some((decoded, end)) => final(self).cursor.at() == end && match decoded {
                    Some(c) => result matches Ok(Escape::Char(found)) && found == c,
                    None => result matches Ok(Escape::Whitespace),
                },
                None => result is Err,
            },
            result is Err ==> final(self).cursor.at() == escape_stop(
                old(self).text(),
                old(self).cursor.at() as int,
            ),
    {
        let escape_start = self.cursor;
        self.cursor.bump();
        let following = match self.cursor.peek() {
            Some(following) => following,
            None => {
                return Err(Error::syntax(escape_start.span_here(1), "unterminated string escape"));
            },
        };
        let dialect = self.dialect();
        if let Some(decoded) = dialect.decode_escape(following) {
            self.cursor.bump();
            return Ok(Escape::Char(decoded));
        }
        if following == 'u' {
            return match self.unicode_escape(escape_start) {
                Ok(decoded) => Ok(Escape::Char(decoded)),
                Err(error) => Err(error),
            };
        }
        if dialect == Dialect::V2 && (dialect.is_space(following) || self.cursor.newline_len().is_some()) {
            let ghost text = self.text();
            let ghost filler_start = self.cursor.at() as int;
            loop
                invariant
                    self.moved_on(*old(self)),
                    self.errors == old(self).errors,
                    self.cursor.at() > old(self).cursor.at(),
                    text == old(self).text(),
                    self.cursor.dialect == dialect,
                    skip_filler(dialect, text, filler_start) == skip_filler(
                        dialect,
                        text,
                        self.cursor.at() as int,
                    ),
                ensures
                    self.moved_on(*old(self)),
                    self.errors == old(self).errors,
                    self.cursor.at() > old(self).cursor.at(),
                    skip_filler(dialect, text, filler_start) == self.cursor.at(),
                decreases self.text().len() - self.cursor.at(),
            {
                if self.cursor.eat_newline() {
                    continue;
                }
                match self.cursor.peek() {
                    Some(filler) => {
                        if dialect.is_space(filler) {
                            self.cursor.bump();
                        } else {
                            break;
                        }
                    },
                    None => break,
                }
            }
            return Ok(Escape::Whitespace);
        }
        self.cursor.bump();
        Err(self.error_since(escape_start, "invalid string escape"))
    }

    /// Parses a `\u{...}` unicode escape sequence into a decoded character.
    fn unicode_escape(&mut self, escape_start: Cursor<'src>) -> (result: Result<char, Error>)
        requires
            old(self).wf(),
            escape_start.wf(),
            escape_start.same_text(old(self).cursor),
            escape_start.at() < old(self).cursor.at(),
            escape_start.chars()[escape_start.at()] == '\\',
            old(self).cursor.at() == escape_start.at() + 1,
        ensures
            final(self).moved_on(*old(self)),
            final(self).errors == old(self).errors,
            failure_within(result, old(self).text()),
            match unicode_at(old(self).text(), escape_start.at() as int) {
                Some((decoded, end)) => result == Ok::<char, Error>(decoded) && final(self).cursor.at()
                    == end,
                None => result is Err,
            },
            result is Err ==> final(self).cursor.at() == unicode_stop(
                old(self).text(),
                escape_start.at() as int,
            ),
            result matches Ok(decoded) ==> {
                let digits = old(self).text().subrange(
                    old(self).cursor.at() + 2,
                    final(self).cursor.at() - 1,
                );
                &&& 1 <= digits.len() <= 6
                &&& forall|i: int| 0 <= i < digits.len() ==> hex_digit(#[trigger] digits[i])
                &&& decoded as nat == hex_number(digits)
            },
    {
        proof {
            reveal_strlit("u{");
            reveal_with_fuel(pow16, 6);
        }
        if !self.cursor.eat("u{") {
            return Err(Error::syntax(escape_start.span_here(1), "invalid unicode escape"));
        }
        let digits_start = self.cursor;
        let count = self.cursor.eat_while(CharClass::HexDigit);
        proof {
            let text = self.text();
            assert forall|i: int| digits_start.at() <= i < digits_start.at() + count implies #[trigger] hex_digit(
                text[i],
            ) by {
                assert(crate::cursor::in_class(CharClass::HexDigit, digits_start.dialect, text[i]));
            }
            if digits_start.at() + count < text.len() {
                assert(!crate::cursor::in_class(
                    CharClass::HexDigit,
                    digits_start.dialect,
                    text[digits_start.at() + count],
                ));
            }
            lemma_hex_run(text, digits_start.at() as int, count as int);
            assert(digits_start.at() == escape_start.at() + 3);
        }
        match self.cursor.peek() {
            Some(closing) => {
                if closing != '}' {
                    return Err(self.error_at_char(closing, "invalid unicode escape"));
                }
            },
            None => {
                return Err(self.error_since(escape_start, "unterminated unicode escape"));
            },
        }
        self.cursor.bump();
        if count == 0 || count > 6 {
            return Err(self.error_since(escape_start, "invalid unicode escape"));
        }
        proof {
            reveal_strlit("u{");
        }
        let ghost digits = self.text().subrange(digits_start.at(), digits_start.at() + count);
        let mut probe = digits_start;
        let mut value: u32 = 0;
        let mut seen: usize = 0;
        while seen < count
            invariant
                probe.wf(),
                probe.same_text(digits_start),
                digits_start.wf(),
                probe.at() == digits_start.at() + seen,
                seen <= count <= 6,
                digits_start.at() + count <= digits_start.chars().len(),
                digits == digits_start.chars().subrange(digits_start.at(), digits_start.at() + count),
                forall|i: int| 0 <= i < count ==> hex_digit(#[trigger] digits[i]),
                value as nat == hex_number(digits.take(seen as int)),
                value < pow16(seen as nat),
            decreases count - seen,
        {
            let character = probe.bump().unwrap();
            proof {
                reveal_with_fuel(pow16, 6);
                assert(digits[seen as int] == character);
                assert(digits.take(seen + 1).drop_last() =~= digits.take(seen as int));
                assert(pow16((seen + 1) as nat) == pow16(seen as nat) * 16);
                assert(pow16(seen as nat) <= pow16(5)) by {
                    lemma_pow16_mono(seen as nat, 5);
                }
            }
            value = value * 16 + hex_digit_value(character);
            seen += 1;
        }
        proof {
            assert(digits.take(count as int) =~= digits);
            assert(digits =~= self.text().subrange(old(self).cursor.at() + 2, self.cursor.at() - 1));
        }
        let found = char_from_scalar(value);
        proof {
            let k = escape_start.at() as int;
            let text = old(self).text();
            assert(hex_run(text, k + 3) == count);
            assert(text.subrange(k + 3, k + 3 + count) =~= digits);
            assert(text[k + 3 + count] == '}');
            assert(continues_with(text, k + 1, "u{"@));
        }
        match found {
            Some(decoded) => {
                proof {
                    assert(value as nat == hex_number(digits));
                    assert(decoded as nat == value as nat);
                    lemma_char_value(decoded);
                    assert(decoded == hex_number(digits) as char);
                    assert(self.cursor.at() == escape_start.at() + 3 + count + 1);
                }
                Ok(decoded)
            },
            None => Err(self.error_since(escape_start, "invalid unicode escape")),
        }
    }
}

/// Sixteen to the power `n`.
pub open spec fn pow16(n: nat) -> nat
    decreases n,
{
    if n == 0 {
        1
    } else {
        16 * pow16((n - 1) as nat)
    }
}

pub(crate) proof fn lemma_pow16_mono(a: nat, b: nat)
    requires
        a <= b,
    ensures
        pow16(a) <= pow16(b),
    decreases b,
{
    if a < b {
        lemma_pow16_mono(a, (b - 1) as nat);
    }
}

/// The text a copy-on-write string holds, as an owned string.
fn cow_into_string<'a>(text: Cow<'a, str>) -> (owned: String)
    ensures
        owned@ == text@,
{
    match text {
        Cow::Borrowed(borrowed) => borrowed.to_owned(),
        Cow::Owned(owned) => owned,
    }
}

/// `prefix` followed by what is read on, with where it closes and whether a
/// character escape was kept in either part.
pub open spec fn gathered_then(prefix: Seq<char>, escapes: bool, rest: Option<(Seq<char>, int, bool)>) -> Option<(Seq<char>, int, bool)> {
    match rest {
        Some((tail, close, later)) => Some((prefix + tail, close, escapes || later)),
        None => None,
    }
}

/// What the scan of a multi-line string body from character `k` of `text`
/// gathers before its closing delimiter, where that delimiter is, and whether
/// a character escape was kept for decoding after the dedent: ordinary
/// characters are kept, whitespace escapes dropped, other escapes kept as
/// written; a raw body is kept whole. `None` when a strict read fails, for an
/// unclosed string, an invalid escape or a disallowed character.
pub open spec fn gathered_from(dialect: Dialect, text: Seq<char>, k: int, delimiter: Delimiter) -> Option<(Seq<char>, int, bool)>
    decreases text.len() - k,
{
    if k < 0 || k >= text.len() {
        None
    } else if closes_at(text, k, delimiter) {
        Some((Seq::empty(), k, false))
    } else if text[k] == '\\' && delimiter.hashes is None {
        match escape_at(dialect, text, k) {
            Some((decoded, end)) => if k < end <= text.len() {
                match decoded {
                    Some(_) => gathered_then(
                        text.subrange(k, end),
                        true,
                        gathered_from(dialect, text, end, delimiter),
                    ),
                    None => gathered_from(dialect, text, end, delimiter),
                }
            } else {
                None
            },
            None => None,
        }
    } else if disallowed_char(dialect, text[k]) {
        None
    } else {
        gathered_then(seq![text[k]], false, gathered_from(dialect, text, k + 1, delimiter))
    }
}

/// The lines of `text` from character `k` on, the current line having
/// started at `start`: each line that a newline ends, without the newline,
/// and where the last line, which no newline ends, starts.
pub open spec fn lines_from(text: Seq<char>, start: int, k: int) -> (Seq<Seq<char>>, int)
    decreases text.len() - k,
{
    if k < 0 || k >= text.len() {
        (Seq::empty(), start)
    } else if newline_at(Dialect::V2, text, k) > 0 {
        let next = k + newline_at(Dialect::V2, text, k);
        let rest = lines_from(text, next, next);
        (seq![text.subrange(start, k)] + rest.0, rest.1)
    } else {
        lines_from(text, start, k + 1)
    }
}

/// The content lines of a multi-line string body: every line but the last.
pub open spec fn body_lines(text: Seq<char>) -> Seq<Seq<char>> {
    lines_from(text, 0, 0).0
}

/// The last line of a multi-line string body, the one the closing delimiter
/// stands on: the indentation every content line loses.
pub open spec fn closing_indent(text: Seq<char>) -> Seq<char> {
    text.subrange(lines_from(text, 0, 0).1, text.len() as int)
}

/// `lines` put together with a line feed between each two.
pub open spec fn joined(lines: Seq<Seq<char>>) -> Seq<char>
    decreases lines.len(),
{
    if lines.len() == 0 {
        Seq::empty()
    } else if lines.len() == 1 {
        lines[0]
    } else {
        joined(lines.drop_last()) + seq!['\n'] + lines.last()
    }
}

/// How many KDL v2 spaces of `line` follow one another from `k` on.
pub open spec fn space_run(line: Seq<char>, k: int) -> nat
    decreases line.len() - k,
{
    if 0 <= k < line.len() && space_char(Dialect::V2, line[k]) {
        1 + space_run(line, k + 1)
    } else {
        0
    }
}

/// A content line after the dedent: empty when it is all whitespace, else
/// without the closing line's indentation, or, when it does not start with
/// that, without its leading whitespace.
pub open spec fn dedent_line(line: Seq<char>, indent: Seq<char>) -> Seq<char> {
    if all_space(line) {
        Seq::empty()
    } else if continues_with(line, 0, indent) {
        line.skip(indent.len() as int)
    } else {
        line.skip(space_run(line, 0) as int)
    }
}

/// The value of a multi-line string body after the dedent: its content
/// lines, each dedented, joined by line feeds.
pub open spec fn dedented(text: Seq<char>) -> Seq<char> {
    joined(body_lines(text).map_values(|line: Seq<char>| dedent_line(line, closing_indent(text))))
}

/// Whether a content line of a multi-line string body that is not all
/// whitespace fails to start with the closing line's indentation.
pub open spec fn under_indented(text: Seq<char>) -> bool {
    exists|i: int|
        0 <= i < body_lines(text).len() && !all_space(#[trigger] body_lines(text)[i])
            && !continues_with(body_lines(text)[i], 0, closing_indent(text))
}

/// `prefix` followed by what is decoded on.
pub open spec fn decoded_then(prefix: Seq<char>, rest: Option<Seq<char>>) -> Option<Seq<char>> {
    match rest {
        Some(tail) => Some(prefix + tail),
        None => None,
    }
}

/// `text` from character `k` on with its KDL v2 escapes decoded; `None` at
/// an invalid escape.
pub open spec fn unescaped_from(text: Seq<char>, k: int) -> Option<Seq<char>>
    decreases text.len() - k,
{
    if k < 0 || k >= text.len() {
        Some(Seq::empty())
    } else if text[k] != '\\' {
        decoded_then(seq![text[k]], unescaped_from(text, k + 1))
    } else {
        match escape_at(Dialect::V2, text, k) {
            Some((decoded, end)) => if k < end <= text.len() {
                decoded_then(
                    match decoded {
                        Some(c) => seq![c],
                        None => Seq::empty(),
                    },
                    unescaped_from(text, end),
                )
            } else {
                None
            },
            None => None,
        }
    }
}

/// The value of a multi-line string whose opening quotes end at character
/// `k` of `text`, and where its closing delimiter is: a newline opens it, the
/// gathered body is dedented and then has its kept escapes decoded, as a
/// lexer does, after a leading byte order mark; `None` when a strict read
/// fails, for a missing opening newline, a failed scan, a
/// closing line that is not all whitespace, an under-indented line or an
/// invalid escape.
pub open spec fn multiline_from(dialect: Dialect, text: Seq<char>, k: int, delimiter: Delimiter) -> Option<(Seq<char>, int)> {
    let opening = newline_at(dialect, text, k);
    if opening == 0 {
        None
    } else {
        match gathered_from(dialect, text, k + opening, delimiter) {
            Some((body, close, escapes)) => if !all_space(closing_indent(body)) || under_indented(
                body,
            ) {
                None
            } else if escapes {
                match unescaped_from(dedented(body), bom_len(dedented(body))) {
                    Some(value) => Some((value, close)),
                    None => None,
                }
            } else {
                Some((dedented(body), close))
            },
            None => None,
        }
    }
}

/// `prefix` followed by what a lenient scan gathers on, with where it stops,
/// whether a closing delimiter ended it, and whether a character escape was
/// kept in either part.
pub open spec fn regathered_then(prefix: Seq<char>, escapes: bool, rest: (Seq<char>, int, bool, bool)) -> (Seq<char>, int, bool, bool) {
    (prefix + rest.0, rest.1, rest.2, escapes || rest.3)
}

/// What a lenient scan of a multi-line string body gathers from character
/// `k` of `text` on once it has met an escape, where it stops, whether the
/// closing delimiter ended it, and whether a character escape was kept: as
/// `gathered_from`, but an invalid escape or a disallowed character is
/// skipped, and the end of the text ends the string unclosed.
pub open spec fn regathered_from(dialect: Dialect, text: Seq<char>, k: int, delimiter: Delimiter) -> (Seq<char>, int, bool, bool)
    decreases text.len() - k,
{
    if k < 0 || k >= text.len() {
        (Seq::empty(), text.len() as int, false, false)
    } else if closes_at(text, k, delimiter) {
        (Seq::empty(), k, true, false)
    } else if text[k] == '\\' && delimiter.hashes is None {
        match escape_at(dialect, text, k) {
            Some((decoded, end)) => if k < end <= text.len() {
                match decoded {
                    Some(_) => regathered_then(
                        text.subrange(k, end),
                        true,
                        regathered_from(dialect, text, end, delimiter),
                    ),
                    None => regathered_from(dialect, text, end, delimiter),
                }
            } else {
                (Seq::empty(), k, false, false)
            },
            None => if k < escape_stop(text, k) <= text.len() {
                regathered_from(dialect, text, escape_stop(text, k), delimiter)
            } else {
                (Seq::empty(), k, false, false)
            },
        }
    } else if disallowed_char(dialect, text[k]) {
        regathered_from(dialect, text, k + 1, delimiter)
    } else {
        regathered_then(seq![text[k]], false, regathered_from(dialect, text, k + 1, delimiter))
    }
}

/// What a lenient scan of a multi-line string body from character `k` of
/// `text` on gathers, where it stops, whether the closing delimiter ended it,
/// and whether a character escape was kept: up to the first escape the body
/// is the text as written, a disallowed character included; from there on it
/// is what `regathered_from` gathers.
pub open spec fn lenient_gathered_from(dialect: Dialect, text: Seq<char>, k: int, delimiter: Delimiter) -> (Seq<char>, int, bool, bool)
    decreases text.len() - k,
{
    if k < 0 || k >= text.len() {
        (Seq::empty(), text.len() as int, false, false)
    } else if closes_at(text, k, delimiter) {
        (Seq::empty(), k, true, false)
    } else if text[k] == '\\' && delimiter.hashes is None {
        regathered_from(dialect, text, k, delimiter)
    } else {
        regathered_then(seq![text[k]], false, lenient_gathered_from(dialect, text, k + 1, delimiter))
    }
}

/// The value of a multi-line string whose opening quotes end at character
/// `k` of `text` as a lenient read recovers it, where the read stops and
/// whether the closing delimiter ended it: the body starts after the opening
/// newline, or right away when there is none; a closing line that is not all
/// whitespace leaves the content lines joined as they are, an under-indented
/// line only loses its leading whitespace; `None` when a kept escape turns
/// out invalid, which fails even a lenient read.
pub open spec fn lenient_multiline_from(dialect: Dialect, text: Seq<char>, k: int, delimiter: Delimiter) -> Option<(Seq<char>, int, bool)> {
    let scan = lenient_gathered_from(dialect, text, k + newline_at(dialect, text, k), delimiter);
    let body = scan.0;
    let value = if all_space(closing_indent(body)) {
        dedented(body)
    } else {
        joined(body_lines(body))
    };
    if scan.3 {
        match unescaped_from(value, bom_len(value)) {
            Some(decoded) => Some((decoded, scan.1, scan.2)),
            None => None,
        }
    } else {
        Some((value, scan.1, scan.2))
    }
}

/// Multi-line string body processor handling indentation stripping per the KDL
/// v2 rules.
struct MultilineBody<'text> {
    /// Raw content slice between the opening and closing delimiters.
    text: &'text str,
    /// Source span of the closing triple-quote delimiter for error reporting.
    closing: Span,
}

/// Recovered string value alongside a dedenting error for lenient parsing mode.
struct Undented {
    /// Syntax error describing the invalid multi-line closing or under-indented
    /// line.
    error: Error,
    /// Best-effort string content produced despite the dedenting failure.
    value: String,
}

/// Line segmentation and trailing indentation extracted from a multi-line
/// string body.
struct Lines<'text> {
    /// Individual content lines of the multi-line string without newline
    /// characters.
    content: Vec<&'text str>,
    /// Full text slice of the lines preceding the final line containing the
    /// closing delimiter.
    body: &'text str,
    /// Whitespace prefix on the final line defining the common indentation to
    /// strip.
    indent: &'text str,
    /// Indicates whether every newline in the string body was a simple line
    /// feed.
    only_line_feeds: bool,
}

impl<'text> MultilineBody<'text> {
    /// Splits the body into content lines and isolates the baseline indentation.
    fn lines(&self) -> (lines: Lines<'text>)
        ensures
            lines.content@.len() == body_lines(self.text@).len(),
            forall|i: int|
                0 <= i < lines.content@.len() ==> #[trigger] lines.content@[i]@ == body_lines(
                    self.text@,
                )[i],
            lines.indent@ == closing_indent(self.text@),
            lines.only_line_feeds ==> lines.body@ == joined(body_lines(self.text@)),
    {
        let ghost text = self.text@;
        let mut content: Vec<&'text str> = Vec::new();
        let text_start = Cursor::new(self.text, Dialect::V2);
        let mut cursor = text_start;
        let mut line_start = cursor;
        let mut body: &'text str = "";
        let mut only_line_feeds = true;
        proof {
            reveal_strlit("");
            reveal_strlit("\n");
            assert(content@.map_values(|line: &'text str| line@) + lines_from(text, 0, 0).0
                =~= lines_from(text, 0, 0).0);
        }
        while !cursor.at_end()
            invariant
                text_start.wf(),
                text_start.at() == 0,
                text_start.chars() == text,
                text_start.dialect == Dialect::V2,
                text == self.text@,
                cursor.wf(),
                line_start.wf(),
                cursor.same_text(text_start),
                line_start.same_text(text_start),
                line_start.at() <= cursor.at(),
                lines_from(text, 0, 0) == (
                    content@.map_values(|line: &'text str| line@) + lines_from(
                        text,
                        line_start.at(),
                        cursor.at(),
                    ).0,
                    lines_from(text, line_start.at(), cursor.at()).1,
                ),
                content@.len() == 0 ==> line_start.at() == 0,
                only_line_feeds ==> body@ == joined(content@.map_values(|line: &'text str| line@)),
                only_line_feeds && content@.len() > 0 ==> {
                    &&& 1 <= line_start.at()
                    &&& text[line_start.at() - 1] == '\n'
                    &&& body@ == text.subrange(0, line_start.at() - 1)
                },
            decreases cursor.chars().len() - cursor.at(),
        {
            let line_end = cursor;
            if cursor.eat_newline() {
                let ghost before = content@.map_values(|line: &'text str| line@);
                let ghost rest = lines_from(text, cursor.at(), cursor.at());
                let single = same_text(cursor.slice_from(line_end), "\n");
                let line = line_end.slice_from(line_start);
                only_line_feeds = only_line_feeds && single;
                content.push(line);
                body = line_end.slice_from(text_start);
                proof {
                    reveal_strlit("\n");
                    let after = content@.map_values(|line: &'text str| line@);
                    assert(after =~= before.push(line@));
                    assert(after.drop_last() =~= before);
                    assert(before.push(line@) + rest.0 =~= before + (seq![line@] + rest.0));
                    if only_line_feeds {
                        assert(cursor.chars().subrange(line_end.at(), cursor.at())[0] == text[line_end.at() as int]);
                        if before.len() > 0 {
                            assert(text.subrange(0, line_end.at() as int) =~= text.subrange(
                                0,
                                line_start.at() - 1,
                            ) + seq!['\n'] + text.subrange(line_start.at() as int, line_end.at() as int));
                        }
                    }
                }
                line_start = cursor;
                continue;
            }
            cursor.bump();
            proof {
                assert(lines_from(text, line_start.at(), line_end.at()) == lines_from(
                    text,
                    line_start.at(),
                    cursor.at(),
                ));
            }
        }
        let indent = cursor.slice_from(line_start);
        proof {
            let views = content@.map_values(|line: &'text str| line@);
            assert(views + Seq::<Seq<char>>::empty() =~= views);
        }
        Lines { content, body, indent, only_line_feeds }
    }

    /// Strips common indentation from all lines, returning a recovered value on
    /// format errors.
    fn dedent(&self) -> (result: Result<Cow<'text, str>, Undented>)
        ensures
            result matches Err(undented) ==> undented.error.at() == self.closing,
            !all_space(closing_indent(self.text@)) ==> (result matches Err(undented)
                && undented.value@ == joined(body_lines(self.text@))
                && undented.error.detail() == "invalid multi-line string closing"@),
            all_space(closing_indent(self.text@)) ==> (result matches Err(undented)
                ==> undented.error.detail() == "multi-line string line under-indented"@),
            result matches Err(undented) ==> undented.error.category() == ErrorKind::Syntax,
            all_space(closing_indent(self.text@)) ==> match result {
                Ok(value) => !under_indented(self.text@) && value@ == dedented(self.text@),
                Err(undented) => under_indented(self.text@) && undented.value@ == dedented(
                    self.text@,
                ),
            },
    {
        let ghost text = self.text@;
        let ghost views = body_lines(text);
        let ghost indent = closing_indent(text);
        let ghost stripped = views.map_values(|line: Seq<char>| dedent_line(line, indent));
        let lines = self.lines();
        proof {
            reveal_strlit("\n");
        }
        if !is_all_space(lines.indent) {
            let mut joined_text = String::new();
            let mut index: usize = 0;
            while index < lines.content.len()
                invariant
                    index <= lines.content@.len(),
                    lines.content@.len() == views.len(),
                    forall|i: int|
                        0 <= i < lines.content@.len() ==> #[trigger] lines.content@[i]@ == views[i],
                    joined_text@ == joined(views.take(index as int)),
                decreases lines.content.len() - index,
            {
                proof {
                    reveal_strlit("\n");
                    lemma_joined_step(views, index as int);
                }
                if index > 0 {
                    joined_text.append("\n");
                }
                joined_text.append(lines.content[index]);
                index += 1;
            }
            proof {
                assert(views.take(views.len() as int) =~= views);
            }
            return Err(
                Undented {
                    error: Error::syntax(self.closing, "invalid multi-line string closing"),
                    value: joined_text,
                },
            );
        }
        let mut blank_line = false;
        let mut scan: usize = 0;
        while scan < lines.content.len()
            invariant
                scan <= lines.content@.len(),
                lines.content@.len() == views.len(),
                forall|i: int|
                    0 <= i < lines.content@.len() ==> #[trigger] lines.content@[i]@ == views[i],
                blank_line <==> exists|k: int|
                    0 <= k < scan && views[k].len() > 0 && all_space(#[trigger] views[k]),
            decreases lines.content.len() - scan,
        {
            let line = lines.content[scan];
            if !line.is_empty() && is_all_space(line) {
                blank_line = true;
            }
            scan += 1;
        }
        if lines.indent.is_empty() && lines.only_line_feeds && !blank_line {
            proof {
                assert(stripped =~= views) by {
                    assert forall|i: int| 0 <= i < views.len() implies stripped[i] == views[i] by {
                        if all_space(views[i]) {
                            assert(views[i].len() == 0);
                            assert(views[i] =~= Seq::<char>::empty());
                        } else {
                            assert(views[i].subrange(0, 0) =~= indent);
                            assert(views[i].skip(0) =~= views[i]);
                        }
                    }
                }
                assert forall|i: int| 0 <= i < views.len() && !all_space(#[trigger] views[i]) implies continues_with(
                    views[i],
                    0,
                    indent,
                ) by {
                    assert(views[i].subrange(0, 0) =~= indent);
                }
            }
            return Ok(Cow::Borrowed(lines.body));
        }
        let mut value = String::new();
        let mut under = false;
        let mut index: usize = 0;
        while index < lines.content.len()
            invariant
                index <= lines.content@.len(),
                lines.content@.len() == views.len(),
                forall|i: int|
                    0 <= i < lines.content@.len() ==> #[trigger] lines.content@[i]@ == views[i],
                lines.indent@ == indent,
                stripped == views.map_values(|line: Seq<char>| dedent_line(line, indent)),
                value@ == joined(stripped.take(index as int)),
                under <==> exists|k: int|
                    0 <= k < index && !all_space(#[trigger] views[k]) && !continues_with(
                        views[k],
                        0,
                        indent,
                    ),
            decreases lines.content.len() - index,
        {
            let line = lines.content[index];
            proof {
                reveal_strlit("\n");
                lemma_joined_step(stripped, index as int);
            }
            if index > 0 {
                value.append("\n");
            }
            if !is_all_space(line) {
                match strip_prefix(line, lines.indent) {
                    Some(rest) => value.append(rest),
                    None => {
                        under = true;
                        value.append(trim_space_start(line));
                    },
                }
            } else {
                proof {
                    assert(value@ + stripped[index as int] =~= value@);
                }
            }
            index += 1;
        }
        proof {
            assert(stripped.take(stripped.len() as int) =~= stripped);
        }
        if under {
            return Err(
                Undented {
                    error: Error::syntax(self.closing, "multi-line string line under-indented"),
                    value,
                },
            );
        }
        Ok(Cow::Owned(value))
    }

    /// Resolves escape sequences across the previously dedented multi-line
    /// string body.
    fn unescape(closing: Span, dedented: &str) -> (result: Result<String, Error>)
        ensures
            result matches Err(error) ==> error.at() == closing && error.category() == ErrorKind::Syntax
                && error.detail() == "invalid string escape"@,
            match unescaped_from(dedented@, bom_len(dedented@)) {
                Some(value) => result matches Ok(found) && found@ == value,
                None => result is Err,
            },
    {
        let ghost text = dedented@;
        let mut value = String::new();
        let mut lexer = Lexer::new(dedented, Dialect::V2);
        proof {
            if let Some(tail) = unescaped_from(text, bom_len(text)) {
                assert(value@ + tail =~= tail);
            }
        }
        loop
            invariant
                lexer.wf(),
                lexer.text() == text,
                text == dedented@,
                lexer.cursor.dialect == Dialect::V2,
                unescaped_from(text, bom_len(text)) == decoded_then(value@, unescaped_from(text, lexer.cursor.at())),
            ensures
                lexer.cursor.at() == text.len(),
                unescaped_from(text, bom_len(text)) == decoded_then(value@, unescaped_from(text, lexer.cursor.at())),
            decreases lexer.text().len() - lexer.cursor.at(),
        {
            let ghost at = lexer.cursor.at();
            let ghost before = value@;
            let character = match lexer.cursor.peek() {
                Some(character) => character,
                None => break,
            };
            if character != '\\' {
                push_char(&mut value, character);
                lexer.cursor.bump();
                proof {
                    let rest = unescaped_from(text, at + 1);
                    if let Some(tail) = rest {
                        assert(before + (seq![character] + tail) =~= before.push(character) + tail);
                    }
                }
                continue;
            }
            match lexer.escape() {
                Ok(Escape::Char(decoded)) => {
                    push_char(&mut value, decoded);
                    proof {
                        let rest = unescaped_from(text, lexer.cursor.at());
                        if let Some(tail) = rest {
                            assert(before + (seq![decoded] + tail) =~= before.push(decoded) + tail);
                        }
                    }
                },
                Ok(Escape::Whitespace) => {
                    proof {
                        let rest = unescaped_from(text, lexer.cursor.at());
                        if let Some(tail) = rest {
                            assert(Seq::<char>::empty() + tail =~= tail);
                        }
                    }
                },
                Err(_) => {
                    proof {
                        assert(unescaped_from(text, at) is None);
                    }
                    return Err(Error::syntax(closing, "invalid string escape"));
                },
            }
        }
        proof {
            assert(value@ + Seq::<char>::empty() =~= value@);
        }
        Ok(value)
    }
}

/// `lines` up to and including line `i` joined is those before it joined,
/// then a line feed, then line `i`; the first line alone for `i == 0`.
proof fn lemma_joined_step(lines: Seq<Seq<char>>, i: int)
    requires
        0 <= i < lines.len(),
    ensures
        joined(lines.take(i + 1)) == if i == 0 {
            lines[0]
        } else {
            joined(lines.take(i)) + seq!['\n'] + lines[i]
        },
{
    assert(lines.take(i + 1).drop_last() =~= lines.take(i));
}

/// A run of `count` spaces from `k` that ends at the end of `line` or before
/// another character is the whole run.
proof fn lemma_space_run(line: Seq<char>, k: int, count: int)
    requires
        0 <= k,
        0 <= count,
        k + count <= line.len(),
        forall|i: int| k <= i < k + count ==> space_char(Dialect::V2, #[trigger] line[i]),
        k + count == line.len() || !space_char(Dialect::V2, line[k + count]),
    ensures
        space_run(line, k) == count,
    decreases count,
{
    if count > 0 {
        lemma_space_run(line, k + 1, count - 1);
    }
}

/// Whether every character of `text` is KDL v2 horizontal whitespace.
pub open spec fn all_space(text: Seq<char>) -> bool {
    forall|i: int| 0 <= i < text.len() ==> space_char(Dialect::V2, #[trigger] text[i])
}

/// Returns whether the given string slice consists entirely of KDL space
/// characters.
fn is_all_space(text: &str) -> (spaces: bool)
    ensures
        spaces == all_space(text@),
{
    let mut cursor = Cursor::new(text, Dialect::V2);
    cursor.eat_while(CharClass::Space);
    cursor.at_end()
}

/// The rest of `line` after `prefix`, when `line` starts with it.
fn strip_prefix<'a>(line: &'a str, prefix: &str) -> (rest: Option<&'a str>)
    ensures
        rest is Some <==> continues_with(line@, 0, prefix@),
        rest matches Some(tail) ==> tail@ == line@.skip(prefix@.len() as int),
{
    let mut cursor = Cursor::new(line, Dialect::V2);
    if cursor.eat(prefix) {
        Some(cursor.rest())
    } else {
        None
    }
}

/// `line` without its leading KDL v2 whitespace.
fn trim_space_start<'a>(line: &'a str) -> (rest: &'a str)
    ensures
        rest@ == line@.skip(space_run(line@, 0) as int),
{
    let mut cursor = Cursor::new(line, Dialect::V2);
    let count = cursor.eat_while(CharClass::Space);
    proof {
        assert forall|i: int| 0 <= i < count implies space_char(Dialect::V2, #[trigger] line@[i]) by {
            assert(crate::cursor::in_class(CharClass::Space, Dialect::V2, line@[i]));
        }
        if count < line@.len() {
            assert(!crate::cursor::in_class(CharClass::Space, Dialect::V2, line@[count as int]));
        }
        lemma_space_run(line@, 0, count as int);
    }
    cursor.rest()
}

/// A character is the character of its own scalar value.
proof fn lemma_char_value(c: char)
    ensures
        c == (c as nat) as char,
{
}

} // verus!
