//! A copyable scan position into the source text.
use vstd::prelude::*;

use crate::ast::{radix_digit, Radix};
use crate::dialect::{identifier_char, newline_char, space_char, Dialect};
use crate::span::{span_within, Span};
use crate::text::{
    char_len, char_width, lemma_boundary, lemma_text_len_prefix, lemma_text_len_step, slice,
    text_len,
};

verus! {

/// How many characters the line break starting at character `k` of `text`
/// takes, or zero when none starts there; `\r\n` counts as one break.
pub open spec fn newline_at(dialect: Dialect, text: Seq<char>, k: int) -> nat {
    if 0 <= k < text.len() && newline_char(dialect, text[k]) {
        if text[k] == '\r' && k + 1 < text.len() && text[k + 1] == '\n' {
            2
        } else {
            1
        }
    } else {
        0
    }
}

/// Whether three double quotes start at character `k` of `text`.
pub open spec fn triple_at(text: Seq<char>, k: int) -> bool {
    &&& 0 <= k
    &&& k + 3 <= text.len()
    &&& text[k] == '"'
    &&& text[k + 1] == '"'
    &&& text[k + 2] == '"'
}

/// Whether `text` continues with `prefix` from character `k` on.
pub open spec fn continues_with(text: Seq<char>, k: int, prefix: Seq<char>) -> bool {
    0 <= k && k + prefix.len() <= text.len() && text.subrange(k, k + prefix.len()) == prefix
}

/// A class of characters a cursor can skip over.
#[derive(Clone, Copy)]
pub enum CharClass {
    /// Horizontal whitespace of the dialect.
    Space,
    /// Characters allowed in a bare identifier of the dialect.
    Identifier,
    /// The `#` character.
    Hash,
    /// ASCII digits.
    Digit,
    /// ASCII digits and `_`.
    DigitOrUnderscore,
    /// ASCII hexadecimal digits.
    HexDigit,
    /// Digits of the given radix and `_`.
    RadixDigitOrUnderscore(Radix),
}

/// Whether `c` belongs to `class` under the rules of `dialect`.
pub open spec fn in_class(class: CharClass, dialect: Dialect, c: char) -> bool {
    match class {
        CharClass::Space => space_char(dialect, c),
        CharClass::Identifier => identifier_char(dialect, c),
        CharClass::Hash => c == '#',
        CharClass::Digit => '0' <= c && c <= '9',
        CharClass::DigitOrUnderscore => ('0' <= c && c <= '9') || c == '_',
        CharClass::HexDigit => ('0' <= c && c <= '9') || ('a' <= c && c <= 'f') || ('A' <= c
            && c <= 'F'),
        CharClass::RadixDigitOrUnderscore(radix) => c == '_' || radix_digit(radix, c),
    }
}

/// How many characters of class `class` follow one another in `text` from
/// `k` on.
pub open spec fn class_run(class: CharClass, dialect: Dialect, text: Seq<char>, k: int) -> nat
    decreases text.len() - k,
{
    if 0 <= k < text.len() && in_class(class, dialect, text[k]) {
        1 + class_run(class, dialect, text, k + 1)
    } else {
        0
    }
}

/// A run of `count` characters of a class from `k` that ends at the end of
/// the text or before another character is the whole run.
pub proof fn lemma_class_run(class: CharClass, dialect: Dialect, text: Seq<char>, k: int, count: int)
    requires
        0 <= k,
        0 <= count,
        k + count <= text.len(),
        forall|i: int| k <= i < k + count ==> in_class(class, dialect, #[trigger] text[i]),
        k + count == text.len() || !in_class(class, dialect, text[k + count]),
    ensures
        class_run(class, dialect, text, k) == count,
    decreases count,
{
    if count > 0 {
        lemma_class_run(class, dialect, text, k + 1, count - 1);
    }
}

impl CharClass {
    pub fn accepts(self, dialect: Dialect, c: char) -> (member: bool)
        ensures
            member == in_class(self, dialect, c),
    {
        match self {
            CharClass::Space => dialect.is_space(c),
            CharClass::Identifier => dialect.is_identifier(c),
            CharClass::Hash => c == '#',
            CharClass::Digit => '0' <= c && c <= '9',
            CharClass::DigitOrUnderscore => ('0' <= c && c <= '9') || c == '_',
            CharClass::HexDigit => ('0' <= c && c <= '9') || ('a' <= c && c <= 'f') || ('A' <= c
                && c <= 'F'),
            CharClass::RadixDigitOrUnderscore(radix) => c == '_' || radix.accepts(c),
        }
    }
}

/// A copyable scan position into the source text that only advances by whole
/// characters or matched prefixes.
#[derive(Clone, Copy)]
pub struct Cursor<'src> {
    /// Complete input string slice being scanned.
    pub(crate) source: &'src str,
    /// Byte offset into `source`, always on a char boundary.
    pub(crate) position: usize,
    /// Dialect rules controlling newline and character classification.
    pub(crate) dialect: Dialect,
    /// Number of characters before `position`.
    pub(crate) index: Ghost<int>,
}

impl<'src> Cursor<'src> {
    /// The whole source text as characters.
    pub(crate) open spec fn chars(self) -> Seq<char> {
        self.source@
    }

    /// The number of characters already passed.
    pub(crate) open spec fn at(self) -> int {
        self.index@
    }

    pub(crate) open spec fn wf(self) -> bool {
        &&& 0 <= self.index@ <= self.source@.len()
        &&& self.position == text_len(self.source@.take(self.index@))
        &&& text_len(self.source@) <= usize::MAX
    }

    /// The characters not yet passed.
    pub(crate) open spec fn remaining(self) -> Seq<char> {
        self.source@.skip(self.index@)
    }

    /// Both cursors scan the same text with the same rules.
    pub(crate) open spec fn same_text(self, other: Self) -> bool {
        self.source == other.source && self.dialect == other.dialect
    }

    /// The byte offset reached after `k` characters of this cursor's text.
    pub(crate) open spec fn offset_of(self, k: int) -> nat {
        text_len(self.source@.take(k))
    }

    /// Creates a new cursor starting at the beginning of the given source text.
    pub(crate) fn new(source: &'src str, dialect: Dialect) -> (cursor: Self)
        ensures
            cursor.wf(),
            cursor.source == source,
            cursor.dialect == dialect,
            cursor.at() == 0,
    {
        proof {
            assert(source@.take(0) =~= Seq::<char>::empty());
        }
        let bytes = source.as_bytes();
        let _whole = bytes.len();
        Self { source, position: 0, dialect, index: Ghost(0) }
    }

    /// Returns the dialect configuring this cursor.
    pub(crate) fn dialect(self) -> (dialect: Dialect)
        ensures
            dialect == self.dialect,
    {
        self.dialect
    }

    /// Returns the total byte length of the underlying source text.
    pub(crate) fn source_len(self) -> (length: usize)
        ensures
            length == text_len(self.source@),
    {
        self.source.as_bytes().len()
    }

    /// Returns whether the cursor has reached or passed the end of the input.
    pub(crate) fn at_end(self) -> (end: bool)
        requires
            self.wf(),
        ensures
            end == (self.at() == self.chars().len()),
    {
        proof {
            if self.index@ < self.source@.len() {
                lemma_text_len_step(self.source@, self.index@);
                lemma_text_len_prefix(self.source@, self.index@ + 1, self.source@.len() as int);
            } else {
                assert(self.source@.take(self.index@) =~= self.source@);
            }
        }
        self.position >= self.source.as_bytes().len()
    }

    /// Returns the remaining unconsumed slice of the source text.
    pub(crate) fn rest(self) -> (rest: &'src str)
        requires
            self.wf(),
        ensures
            rest@ == self.remaining(),
    {
        proof {
            assert(self.source@.take(self.source@.len() as int) =~= self.source@);
        }
        let whole = self.source.as_bytes().len();
        slice(self.source, self.position, whole, Ghost(self.index@), Ghost(self.source@.len() as int))
    }

    /// Slices the source text from the earlier cursor position up to the current
    /// position.
    pub(crate) fn slice_from(self, start: Self) -> (text: &'src str)
        requires
            self.wf(),
            start.wf(),
            start.same_text(self),
            start.at() <= self.at(),
        ensures
            text@ == self.chars().subrange(start.at(), self.at()),
    {
        slice(self.source, start.position, self.position, Ghost(start.index@), Ghost(self.index@))
    }

    /// Constructs a span covering the range from an earlier cursor position to
    /// this one.
    pub(crate) fn span_from(self, start: Self) -> (span: Span)
        requires
            self.wf(),
            start.wf(),
            start.same_text(self),
            start.at() <= self.at(),
        ensures
            span.start_at() == self.offset_of(start.at()),
            span.stop_at() == self.offset_of(self.at()),
            span_within(span, self.chars()),
    {
        proof {
            lemma_text_len_prefix(self.source@, start.index@, self.index@);
            lemma_boundary(self.source@, start.index@);
            lemma_boundary(self.source@, self.index@);
        }
        Span::new(start.position, self.position - start.position)
    }

    /// Constructs a span starting at the current position with the given byte
    /// length.
    pub(crate) fn span_here(self, length: usize) -> (span: Span)
        requires
            self.wf(),
        ensures
            span.start_at() == self.position,
            span.size() == length,
            length == 0 ==> span_within(span, self.chars()),
            self.at() < self.chars().len() && length == char_width(self.chars()[self.at()])
                ==> span_within(span, self.chars()),
            triple_at(self.chars(), self.at()) && length == 3 ==> span_within(span, self.chars()),
    {
        proof {
            lemma_boundary(self.source@, self.index@);
            lemma_text_len_prefix(self.source@, self.index@, self.index@);
            if self.index@ < self.source@.len() {
                lemma_text_len_step(self.source@, self.index@);
                lemma_boundary(self.source@, self.index@ + 1);
                lemma_text_len_prefix(self.source@, self.index@ + 1, self.source@.len() as int);
            }
            if triple_at(self.source@, self.index@) {
                lemma_text_len_step(self.source@, self.index@ + 1);
                lemma_text_len_step(self.source@, self.index@ + 2);
                lemma_boundary(self.source@, self.index@ + 3);
                lemma_text_len_prefix(self.source@, self.index@ + 3, self.source@.len() as int);
            }
        }
        Span::new(self.position, length)
    }

    /// Returns the next character without advancing the cursor, or `None` at the
    /// end of input.
    pub(crate) fn peek(self) -> (next: Option<char>)
        requires
            self.wf(),
        ensures
            next == (if self.at() < self.chars().len() {
                Some(self.chars()[self.at()])
            } else {
                None::<char>
            }),
    {
        if self.at_end() {
            return None;
        }
        let rest = self.rest();
        let mut characters = rest.chars();
        proof {
            assert(rest@.len() > 0);
        }
        characters.next()
    }

    /// Advances past and returns the next character, or returns `None` at the
    /// end of input.
    pub(crate) fn bump(&mut self) -> (next: Option<char>)
        requires
            old(self).wf(),
        ensures
            final(self).wf(),
            final(self).same_text(*old(self)),
            next == (if old(self).at() < old(self).chars().len() {
                Some(old(self).chars()[old(self).at()])
            } else {
                None::<char>
            }),
            final(self).at() == (if next is Some {
                old(self).at() + 1
            } else {
                old(self).at()
            }),
    {
        let character = match self.peek() {
            Some(character) => character,
            None => return None,
        };
        proof {
            lemma_text_len_step(self.source@, self.index@);
            lemma_text_len_prefix(self.source@, self.index@ + 1, self.source@.len() as int);
        }
        self.position = self.position + char_len(character);
        self.index = Ghost(self.index@ + 1);
        Some(character)
    }

    /// Returns whether the remaining unconsumed input begins with the given
    /// prefix string.
    pub(crate) fn starts_with(self, prefix: &str) -> (matched: bool)
        requires
            self.wf(),
        ensures
            matched == continues_with(self.chars(), self.at(), prefix@),
    {
        let mut probe = self;
        self.matches_from(&mut probe, prefix)
    }

    /// Walks `probe` over `prefix` character by character, reporting whether
    /// all of them matched; on a match `probe` ends just past the prefix.
    fn matches_from(self, probe: &mut Self, prefix: &str) -> (matched: bool)
        requires
            self.wf(),
            *old(probe) == self,
        ensures
            matched == continues_with(self.chars(), self.at(), prefix@),
            final(probe).wf(),
            final(probe).same_text(self),
            matched ==> final(probe).at() == self.at() + prefix@.len(),
    {
        let count = prefix.unicode_len();
        let mut i: usize = 0;
        while i < count
            invariant
                self.wf(),
                probe.wf(),
                probe.same_text(self),
                count == prefix@.len(),
                i <= count,
                probe.at() == self.at() + i,
                probe.at() <= self.chars().len(),
                self.chars().subrange(self.at(), probe.at()) == prefix@.take(i as int),
            decreases count - i,
        {
            let expected = prefix.get_char(i);
            let found = probe.bump();
            match found {
                Some(character) => {
                    if character != expected {
                        proof {
                            if continues_with(self.chars(), self.at(), prefix@) {
                                assert(self.chars().subrange(self.at(), self.at() + prefix@.len())[i as int]
                                    == self.chars()[self.at() + i]);
                            }
                        }
                        return false;
                    }
                },
                None => {
                    return false;
                },
            }
            proof {
                assert(self.chars().subrange(self.at(), probe.at()) =~= prefix@.take(i + 1));
            }
            i += 1;
        }
        proof {
            assert(prefix@.take(count as int) =~= prefix@);
        }
        true
    }

    /// Advances past the given prefix string if it matches, returning whether it
    /// matched.
    pub(crate) fn eat(&mut self, prefix: &str) -> (matched: bool)
        requires
            old(self).wf(),
        ensures
            final(self).wf(),
            final(self).same_text(*old(self)),
            matched == continues_with(old(self).chars(), old(self).at(), prefix@),
            final(self).at() == (if matched {
                old(self).at() + prefix@.len()
            } else {
                old(self).at()
            }),
    {
        let start = *self;
        let mut probe = start;
        let matched = start.matches_from(&mut probe, prefix);
        if matched {
            *self = probe;
        }
        matched
    }

    /// Advances past characters of the given class and returns how many were
    /// consumed.
    pub(crate) fn eat_while(&mut self, class: CharClass) -> (count: usize)
        requires
            old(self).wf(),
        ensures
            final(self).wf(),
            final(self).same_text(*old(self)),
            final(self).at() == old(self).at() + count,
            forall|k: int|
                old(self).at() <= k < final(self).at() ==> in_class(
                    class,
                    old(self).dialect,
                    #[trigger] old(self).chars()[k],
                ),
            final(self).at() < old(self).chars().len() ==> !in_class(
                class,
                old(self).dialect,
                old(self).chars()[final(self).at()],
            ),
            count == class_run(class, old(self).dialect, old(self).chars(), old(self).at()),
    {
        let ghost start = *self;
        let mut count: usize = 0;
        proof {
            crate::text::lemma_len_le_text_len(self.source@);
        }
        loop
            invariant
                self.wf(),
                self.same_text(start),
                start.wf(),
                start.chars().len() <= usize::MAX,
                self.at() == start.at() + count,
                forall|k: int|
                    start.at() <= k < self.at() ==> in_class(
                        class,
                        start.dialect,
                        #[trigger] start.chars()[k],
                    ),
            ensures
                self.wf(),
                self.same_text(start),
                self.at() == start.at() + count,
                forall|k: int|
                    start.at() <= k < self.at() ==> in_class(
                        class,
                        start.dialect,
                        #[trigger] start.chars()[k],
                    ),
                self.at() < start.chars().len() ==> !in_class(
                    class,
                    start.dialect,
                    start.chars()[self.at()],
                ),
            decreases start.chars().len() - self.at(),
        {
            let character = match self.peek() {
                Some(character) => character,
                None => break,
            };
            if !class.accepts(self.dialect, character) {
                break;
            }
            self.bump();
            count += 1;
        }
        proof {
            lemma_class_run(class, start.dialect, start.chars(), start.at(), count as int);
        }
        count
    }

    /// Returns the byte length of a newline sequence at the current position, or
    /// `None` if absent.
    pub(crate) fn newline_len(self) -> (length: Option<usize>)
        requires
            self.wf(),
        ensures
            length == (if newline_at(self.dialect, self.chars(), self.at()) == 0 {
                None::<usize>
            } else {
                Some(
                    (self.offset_of(self.at() + newline_at(self.dialect, self.chars(), self.at()))
                        - self.position) as usize,
                )
            }),
    {
        let character = match self.peek() {
            Some(character) => character,
            None => return None,
        };
        if !self.dialect.is_newline(character) {
            return None;
        }
        proof {
            lemma_text_len_step(self.source@, self.index@);
        }
        if character == '\r' {
            let mut probe = self;
            probe.bump();
            if probe.peek() == Some('\n') {
                proof {
                    lemma_text_len_step(self.source@, self.index@ + 1);
                }
                return Some(2);
            }
        }
        Some(char_len(character))
    }

    /// Consumes a newline sequence at the current position, returning true if
    /// one was consumed.
    pub(crate) fn eat_newline(&mut self) -> (eaten: bool)
        requires
            old(self).wf(),
        ensures
            final(self).wf(),
            final(self).same_text(*old(self)),
            eaten == (newline_at(old(self).dialect, old(self).chars(), old(self).at()) > 0),
            final(self).at() == old(self).at() + newline_at(
                old(self).dialect,
                old(self).chars(),
                old(self).at(),
            ),
    {
        let character = match self.peek() {
            Some(character) => character,
            None => return false,
        };
        if !self.dialect.is_newline(character) {
            return false;
        }
        self.bump();
        if character == '\r' {
            let mut probe = *self;
            if probe.peek() == Some('\n') {
                probe.bump();
                *self = probe;
            }
        }
        true
    }

    /// The byte offset of the cursor, which is a character boundary of the
    /// source.
    pub(crate) proof fn lemma_on_boundary(self)
        requires
            self.wf(),
        ensures
            crate::text::is_boundary(self.chars(), self.position as int),
            self.position <= text_len(self.chars()),
    {
        lemma_boundary(self.source@, self.index@);
        lemma_text_len_prefix(self.source@, self.index@, self.index@);
    }
}

} // verus!
