//! Tokeniser that turns source text into a stream of tagged tokens.
use std::borrow::Cow;

use vstd::prelude::*;

use crate::ast::{radix_digit, Integer, Literal, Radix};
use crate::cursor::{class_run, continues_with, newline_at, CharClass, Cursor};
use crate::dialect::{disallowed_char, identifier_char, keyword_of, space_char, Dialect, Keyword};
use crate::errors::{syntax_error_in, Error};
use crate::span::{span_within, Span};
use crate::strings::{hash_keyword, hash_run, raw_from, string_read, string_start, Delimiter};
use crate::text::{char_len, char_width, push_char};

verus! {

/// Lexical token paired with its source span.
#[derive(Clone, Debug, PartialEq)]
pub struct Token<'src> {
    /// Specific lexical category and payload of the token.
    pub kind: TokenKind<'src>,
    /// Byte offset and length of this token in the source text.
    pub span: Span,
}

/// Lexical token classification produced by the tokenizer.
#[derive(Clone, Debug, PartialEq)]
pub enum TokenKind<'src> {
    /// Horizontal whitespace or comments that separate tokens.
    Space,
    /// Line terminator or line-ending comment ending a node or statement.
    Newline,
    /// Quoted or raw string literal holding unescaped text.
    String(Cow<'src, str>),
    /// Bare word identifier naming a node, property, or type annotation.
    Identifier(Cow<'src, str>),
    /// Parsed literal value such as a boolean, number, or null.
    Literal(Literal<'src>),
    /// Opening parenthesis beginning a type annotation.
    OpenParen,
    /// Closing parenthesis ending a type annotation.
    CloseParen,
    /// Opening brace beginning a child node block.
    OpenBrace,
    /// Closing brace ending a child node block.
    CloseBrace,
    /// Equals sign separating a property key from its value.
    Equals,
    /// Explicit node terminator symbol.
    Semicolon,
    /// Comment prefix that comments out the following node or argument.
    Slashdash,
    /// Marker indicating the end of the input source text.
    Eof,
}

/// Discriminant tag identifying token variants without carrying data payloads.
#[derive(Clone, Copy, Debug, PartialEq, Eq, Structural)]
pub enum Tag {
    Space,
    Newline,
    String,
    Identifier,
    Literal,
    OpenParen,
    CloseParen,
    OpenBrace,
    CloseBrace,
    Equals,
    Semicolon,
    Slashdash,
    Eof,
}

/// The tag of a token kind.
pub open spec fn tag_of<'src>(kind: TokenKind<'src>) -> Tag {
    match kind {
        TokenKind::Space => Tag::Space,
        TokenKind::Newline => Tag::Newline,
        TokenKind::String(_) => Tag::String,
        TokenKind::Identifier(_) => Tag::Identifier,
        TokenKind::Literal(_) => Tag::Literal,
        TokenKind::OpenParen => Tag::OpenParen,
        TokenKind::CloseParen => Tag::CloseParen,
        TokenKind::OpenBrace => Tag::OpenBrace,
        TokenKind::CloseBrace => Tag::CloseBrace,
        TokenKind::Equals => Tag::Equals,
        TokenKind::Semicolon => Tag::Semicolon,
        TokenKind::Slashdash => Tag::Slashdash,
        TokenKind::Eof => Tag::Eof,
    }
}

impl<'src> TokenKind<'src> {
    /// Returns the discriminant tag corresponding to this token kind.
    pub(crate) fn tag(&self) -> (tag: Tag)
        ensures
            tag == tag_of(*self),
    {
        match self {
            TokenKind::Space => Tag::Space,
            TokenKind::Newline => Tag::Newline,
            TokenKind::String(_) => Tag::String,
            TokenKind::Identifier(_) => Tag::Identifier,
            TokenKind::Literal(_) => Tag::Literal,
            TokenKind::OpenParen => Tag::OpenParen,
            TokenKind::CloseParen => Tag::CloseParen,
            TokenKind::OpenBrace => Tag::OpenBrace,
            TokenKind::CloseBrace => Tag::CloseBrace,
            TokenKind::Equals => Tag::Equals,
            TokenKind::Semicolon => Tag::Semicolon,
            TokenKind::Slashdash => Tag::Slashdash,
            TokenKind::Eof => Tag::Eof,
        }
    }
}

/// Whether a failed scan, if it failed, points inside `text`.
pub open spec fn failure_within<T>(result: Result<T, Error>, text: Seq<char>) -> bool {
    result matches Err(error) ==> syntax_error_in(error, text)
}

/// Token scanner that produces lexical tokens and records diagnostics in
/// lenient mode.
pub struct Lexer<'src> {
    /// Current position and source slice being scanned.
    pub cursor: Cursor<'src>,
    /// Diagnostics accumulated during lenient parsing mode.
    pub errors: Vec<Error>,
    /// Controls whether lexical errors are accumulated rather than halting
    /// immediately.
    pub lenient: bool,
}

impl<'src> Lexer<'src> {
    /// The source text as characters.
    pub(crate) open spec fn text(self) -> Seq<char> {
        self.cursor.chars()
    }

    pub(crate) open spec fn wf(self) -> bool {
        &&& self.cursor.wf()
        &&& forall|i: int|
            0 <= i < self.errors@.len() ==> #[trigger] syntax_error_in(
                self.errors@[i],
                self.cursor.source@,
            )
    }

    /// `self` scans the same text as `before`, in the same mode, has not
    /// moved backwards and has lost none of the errors it recorded.
    pub(crate) open spec fn moved_on(self, before: Self) -> bool {
        &&& self.wf()
        &&& self.cursor.same_text(before.cursor)
        &&& self.lenient == before.lenient
        &&& before.cursor.at() <= self.cursor.at()
        &&& before.errors@.len() <= self.errors@.len()
        &&& forall|i: int| 0 <= i < before.errors@.len() ==> self.errors@[i] == #[trigger] before.errors@[i]
    }

    /// Whether the scan since `before` reads as a strict scan does: the lexer
    /// is strict, or it is lenient and has recorded no error since.
    pub(crate) open spec fn quiet_since(self, before: Self) -> bool {
        !self.lenient || self.errors@.len() == before.errors@.len()
    }

    /// Whether the scan so far reads as a strict scan does: the lexer is
    /// strict, or it is lenient and has recorded no error.
    pub(crate) open spec fn clean(self) -> bool {
        !self.lenient || self.errors@.len() == 0
    }

    /// Creates a strict lexer that stops on the first encountered syntax error.
    pub(crate) fn new(source: &'src str, dialect: Dialect) -> (lexer: Self)
        ensures
            lexer.wf(),
            lexer.text() == source@,
            lexer.cursor.dialect == dialect,
            !lexer.lenient,
            lexer.errors@.len() == 0,
            lexer.cursor.at() == bom_len(source@),
    {
        Self::with_mode(source, dialect, false)
    }

    /// Creates a lenient lexer that records syntax errors and attempts recovery.
    pub(crate) fn lenient(source: &'src str, dialect: Dialect) -> (lexer: Self)
        ensures
            lexer.wf(),
            lexer.text() == source@,
            lexer.cursor.dialect == dialect,
            lexer.lenient,
            lexer.errors@.len() == 0,
            lexer.cursor.at() == bom_len(source@),
    {
        Self::with_mode(source, dialect, true)
    }

    /// Initializes a cursor, consumes any leading byte order mark, and sets
    /// error tolerance.
    fn with_mode(source: &'src str, dialect: Dialect, lenient: bool) -> (lexer: Self)
        ensures
            lexer.wf(),
            lexer.text() == source@,
            lexer.cursor.dialect == dialect,
            lexer.lenient == lenient,
            lexer.errors@.len() == 0,
            lexer.cursor.at() == bom_len(source@),
    {
        let mut cursor = Cursor::new(source, dialect);
        proof {
            reveal_strlit("\u{FEFF}");
        }
        let bom = cursor.eat("\u{FEFF}");
        proof {
            if source@.len() > 0 && source@[0] == '\u{FEFF}' {
                assert(source@.subrange(0, 1) =~= "\u{FEFF}"@);
            }
        }
        Self { cursor, errors: Vec::new(), lenient }
    }

    /// Returns whether the lexer is configured to recover from syntax errors.
    pub(crate) fn is_lenient(&self) -> (lenient: bool)
        ensures
            lenient == self.lenient,
    {
        self.lenient
    }

    /// Returns the KDL dialect rules applied by this lexer.
    pub(crate) fn dialect(&self) -> (dialect: Dialect)
        ensures
            dialect == self.cursor.dialect,
    {
        self.cursor.dialect()
    }

    /// Returns the total byte length of the input source text.
    pub(crate) fn source_len(&self) -> (length: usize)
        ensures
            length == crate::text::text_len(self.text()),
    {
        self.cursor.source_len()
    }

    /// Records the error in lenient mode or returns it directly in strict mode.
    pub(crate) fn fail(&mut self, error: Error) -> (result: Result<(), Error>)
        requires
            old(self).wf(),
            syntax_error_in(error, old(self).text()),
        ensures
            final(self).wf(),
            final(self).cursor == old(self).cursor,
            final(self).lenient == old(self).lenient,
            old(self).lenient ==> result is Ok && final(self).errors@ == old(self).errors@.push(
                error,
            ),
            !old(self).lenient ==> result == Err::<(), Error>(error) && final(self).errors@
                == old(self).errors@,
    {
        if !self.lenient {
            return Err(error);
        }
        self.errors.push(error);
        Ok(())
    }

    /// Returns the next lexical token, skipping errors when operating in lenient
    /// mode.
    pub(crate) fn next_token(&mut self) -> (result: Result<Token<'src>, Error>)
        requires
            old(self).wf(),
        ensures
            final(self).moved_on(*old(self)),
            old(self).lenient ==> result is Ok,
            failure_within(result, old(self).text()),
            result matches Ok(token) ==> {
                &&& span_within(token.span, old(self).text())
                &&& old(self).cursor.position <= token.span.start_at()
                &&& token.span.stop_at() == final(self).cursor.position
                &&& final(self).clean() ==> token.span.start_at() == old(self).cursor.position
                &&& token.kind is Eof ==> token.span.size() == 0 && final(self).cursor.at()
                    == old(self).text().len() && token.span.start_at() == crate::text::text_len(
                    old(self).text(),
                )
                &&& !(token.kind is Eof) ==> token.span.size() > 0
                &&& final(self).clean() ==> token_read_at(
                    old(self).cursor.dialect,
                    old(self).text(),
                    token,
                )
            },
    {
        loop
            invariant_except_break
                old(self).wf(),
                self.moved_on(*old(self)),
                self.clean() ==> self.cursor.at() == old(self).cursor.at(),
            ensures
                self.moved_on(*old(self)),
            decreases self.text().len() - self.cursor.at(),
        {
            let start = self.cursor;
            proof {
                crate::text::lemma_text_len_prefix(start.chars(), old(self).cursor.at(), start.at());
            }
            let current = match self.cursor.peek() {
                Some(current) => current,
                None => {
                    let span = start.span_here(0);
                    proof {
                        start.lemma_on_boundary();
                        crate::text::lemma_text_len_prefix(start.chars(), start.at(), start.at());
                        assert(start.chars().take(start.at()) =~= start.chars());
                        assert(token_read(
                            start.dialect,
                            start.chars(),
                            start.at(),
                            start.at(),
                            TokenKind::Eof,
                        ));
                    }
                    return Ok(Token { kind: TokenKind::Eof, span });
                },
            };
            match self.token(current, start) {
                Ok(kind) => {
                    let span = self.cursor.span_from(start);
                    proof {
                        crate::text::lemma_text_len_prefix(start.chars(), start.at(), self.cursor.at());
                        crate::text::lemma_text_len_step(start.chars(), start.at());
                        crate::text::lemma_text_len_prefix(start.chars(), start.at() + 1, self.cursor.at());
                        if self.cursor.at() == self.text().len() {
                            assert(start.chars().take(self.cursor.at()) =~= start.chars());
                        }
                        if self.clean() {
                            assert(token_read(
                                start.dialect,
                                start.chars(),
                                start.at(),
                                self.cursor.at(),
                                kind,
                            ));
                        }
                    }
                    return Ok(Token { kind, span });
                },
                Err(error) => {
                    self.fail(error)?;
                    let consumed = self.cursor.span_from(start);
                    if consumed.is_empty() {
                        proof {
                            if self.cursor.at() > start.at() {
                                crate::text::lemma_text_len_step(start.chars(), start.at());
                                crate::text::lemma_text_len_prefix(start.chars(), start.at() + 1, self.cursor.at());
                            }
                        }
                        self.cursor.bump();
                    }
                },
            }
        }
    }

    /// Dispatches the current character to scan comments, symbols, strings, or
    /// numbers.
    fn token(&mut self, current: char, start: Cursor<'src>) -> (result: Result<
        TokenKind<'src>,
        Error,
    >)
        requires
            old(self).wf(),
            old(self).cursor == start,
            start.at() < start.chars().len(),
            start.chars()[start.at()] == current,
        ensures
            final(self).moved_on(*old(self)),
            failure_within(result, old(self).text()),
            result matches Ok(kind) ==> final(self).cursor.at() > start.at() && !(kind is Eof),
            result matches Ok(kind) ==> final(self).clean() ==> token_read(
                old(self).cursor.dialect,
                old(self).text(),
                start.at() as int,
                final(self).cursor.at() as int,
                kind,
            ),
    {
        proof {
            reveal_strlit("//");
            reveal_strlit("/*");
            reveal_strlit("/-");
        }
        let dialect = self.dialect();
        if dialect.is_disallowed(current) {
            return Err(self.error_at_char(current, "disallowed code point"));
        }
        let kind = if current == '/' {
            if self.cursor.eat("//") {
                self.line_comment()?;
                TokenKind::Newline
            } else if self.cursor.eat("/*") {
                self.block_comment(start)?;
                TokenKind::Space
            } else if self.cursor.eat("/-") {
                TokenKind::Slashdash
            } else {
                return Err(Error::syntax(start.span_here(1), "unexpected `/`"));
            }
        } else if current == '\\' {
            self.cursor.bump();
            self.escline(start)?;
            TokenKind::Space
        } else if current == '(' {
            self.single(TokenKind::OpenParen)
        } else if current == ')' {
            self.single(TokenKind::CloseParen)
        } else if current == '{' {
            self.single(TokenKind::OpenBrace)
        } else if current == '}' {
            self.single(TokenKind::CloseBrace)
        } else if current == '=' {
            self.single(TokenKind::Equals)
        } else if current == ';' {
            self.single(TokenKind::Semicolon)
        } else if current == '"' {
            self.quoted()?
        } else if current == '#' && dialect == Dialect::V2 {
            self.hash()?
        } else if dialect.is_space(current) {
            self.cursor.eat_while(CharClass::Space);
            TokenKind::Space
        } else if self.cursor.eat_newline() {
            TokenKind::Newline
        } else if dialect.is_identifier(current) {
            self.word()?
        } else {
            return Err(self.error_at_char(current, "unexpected character"));
        };
        Ok(kind)
    }

    /// Consumes one single-byte punctuation character and yields the token kind.
    fn single(&mut self, kind: TokenKind<'src>) -> (same: TokenKind<'src>)
        requires
            old(self).wf(),
            old(self).cursor.at() < old(self).text().len(),
        ensures
            final(self).moved_on(*old(self)),
            final(self).cursor.at() == old(self).cursor.at() + 1,
            same == kind,
    {
        self.cursor.bump();
        kind
    }

    /// Builds a syntax error spanning the UTF-8 byte sequence of the given
    /// character.
    pub(crate) fn error_at_char(&self, character: char, message: &str) -> (error: Error)
        requires
            self.wf(),
            self.cursor.at() < self.text().len(),
            self.text()[self.cursor.at()] == character,
        ensures
            syntax_error_in(error, self.text()),
    {
        Error::syntax(self.cursor.span_here(char_len(character)), message)
    }

    /// Builds a syntax error spanning the range from a previous position to the
    /// current one.
    pub(crate) fn error_since(&self, start: Cursor<'src>, message: &str) -> (error: Error)
        requires
            self.wf(),
            start.wf(),
            start.same_text(self.cursor),
            start.at() <= self.cursor.at(),
        ensures
            syntax_error_in(error, self.text()),
            error.detail() == message@,
            error.at().start_at() == byte_at(self.text(), start.at() as int),
            error.at().stop_at() == byte_at(self.text(), self.cursor.at() as int),
    {
        Error::syntax(self.cursor.span_from(start), message)
    }

    /// Consumes a single-line comment up to the newline while rejecting
    /// disallowed characters.
    fn line_comment(&mut self) -> (result: Result<(), Error>)
        requires
            old(self).wf(),
        ensures
            final(self).moved_on(*old(self)),
            final(self).errors == old(self).errors,
            failure_within(result, old(self).text()),
            match line_comment_end(old(self).cursor.dialect, old(self).text(), old(self).cursor.at() as int) {
                Some(end) => result is Ok && final(self).cursor.at() == end,
                None => result is Err,
            },
    {
        loop
            invariant
                self.moved_on(*old(self)),
                self.errors == old(self).errors,
                line_comment_end(old(self).cursor.dialect, old(self).text(), old(self).cursor.at() as int)
                    == line_comment_end(self.cursor.dialect, self.text(), self.cursor.at() as int),
            decreases self.text().len() - self.cursor.at(),
        {
            let character = match self.cursor.peek() {
                Some(character) => character,
                None => return Ok(()),
            };
            if self.cursor.eat_newline() {
                return Ok(());
            }
            if self.dialect().is_disallowed(character) {
                return Err(self.error_at_char(character, "disallowed code point in comment"));
            }
            self.cursor.bump();
        }
    }

    /// Consumes nested block comments, returning an error on unterminated
    /// blocks.
    pub(crate) fn block_comment(&mut self, start: Cursor<'src>) -> (result: Result<(), Error>)
        requires
            old(self).wf(),
            start.wf(),
            start.same_text(old(self).cursor),
            start.at() <= old(self).cursor.at(),
        ensures
            final(self).moved_on(*old(self)),
            final(self).errors == old(self).errors,
            failure_within(result, old(self).text()),
            match block_comment_end(old(self).cursor.dialect, old(self).text(), old(self).cursor.at() as int, 1) {
                Some(end) => result is Ok && final(self).cursor.at() == end,
                None => result is Err,
            },
    {
        let mut depth: usize = 1;
        proof {
            crate::text::lemma_len_le_text_len(self.text());
            reveal_strlit("/*");
            reveal_strlit("*/");
        }
        loop
            invariant
                self.moved_on(*old(self)),
                start.wf(),
                start.same_text(self.cursor),
                start.at() <= old(self).cursor.at(),
                1 <= depth <= self.cursor.at() + 1 - old(self).cursor.at(),
                self.text().len() <= usize::MAX,
                self.errors == old(self).errors,
                block_comment_end(old(self).cursor.dialect, old(self).text(), old(self).cursor.at() as int, 1)
                    == block_comment_end(self.cursor.dialect, self.text(), self.cursor.at() as int, depth as nat),
            ensures
                self.moved_on(*old(self)),
                start.wf(),
                start.same_text(self.cursor),
                start.at() <= old(self).cursor.at(),
                self.errors == old(self).errors,
                self.cursor.at() == self.text().len(),
                block_comment_end(old(self).cursor.dialect, old(self).text(), old(self).cursor.at() as int, 1)
                    is None,
            decreases self.text().len() - self.cursor.at(),
        {
            let character = match self.cursor.peek() {
                Some(character) => character,
                None => break,
            };
            proof {
                reveal_strlit("/*");
                reveal_strlit("*/");
                lemma_pair_at(self.text(), self.cursor.at() as int, "/*"@, '/', '*');
                lemma_pair_at(self.text(), self.cursor.at() as int, "*/"@, '*', '/');
            }
            if self.cursor.eat("/*") {
                depth += 1;
                continue;
            }
            if self.cursor.eat("*/") {
                depth -= 1;
                if depth == 0 {
                    return Ok(());
                }
                continue;
            }
            if self.dialect().is_disallowed(character) {
                return Err(self.error_at_char(character, "disallowed code point in comment"));
            }
            self.cursor.bump();
        }
        Err(self.error_since(start, "unterminated block comment"))
    }

    /// Consumes an escaped newline continuation along with any trailing
    /// whitespace or comments.
    fn escline(&mut self, start: Cursor<'src>) -> (result: Result<(), Error>)
        requires
            old(self).wf(),
            start.wf(),
            start.same_text(old(self).cursor),
            start.at() <= old(self).cursor.at(),
        ensures
            final(self).moved_on(*old(self)),
            final(self).errors == old(self).errors,
            failure_within(result, old(self).text()),
            match escline_end(old(self).cursor.dialect, old(self).text(), old(self).cursor.at() as int) {
                Some(end) => result is Ok && final(self).cursor.at() == end,
                None => result is Err,
            },
    {
        proof {
            reveal_strlit("/*");
        }
        loop
            invariant
                self.moved_on(*old(self)),
                self.errors == old(self).errors,
                escline_end(old(self).cursor.dialect, old(self).text(), old(self).cursor.at() as int)
                    == escline_end(self.cursor.dialect, self.text(), self.cursor.at() as int),
            ensures
                self.moved_on(*old(self)),
                self.errors == old(self).errors,
                escline_end(old(self).cursor.dialect, old(self).text(), old(self).cursor.at() as int)
                    == escline_end(self.cursor.dialect, self.text(), self.cursor.at() as int),
                !pair_at(self.text(), self.cursor.at() as int, '/', '*'),
                !(self.cursor.at() < self.text().len() && space_char(
                    self.cursor.dialect,
                    self.text()[self.cursor.at() as int],
                )),
            decreases self.text().len() - self.cursor.at(),
        {
            let comment_start = self.cursor;
            proof {
                reveal_strlit("/*");
                lemma_pair_at(self.text(), self.cursor.at() as int, "/*"@, '/', '*');
            }
            if self.cursor.eat("/*") {
                self.block_comment(comment_start)?;
                continue;
            }
            match self.cursor.peek() {
                Some(character) => {
                    if self.dialect().is_space(character) {
                        self.cursor.bump();
                    } else {
                        break;
                    }
                },
                None => break,
            }
        }
        proof {
            reveal_strlit("//");
            lemma_pair_at(self.text(), self.cursor.at() as int, "//"@, '/', '/');
        }
        if self.cursor.eat("//") {
            return self.line_comment();
        }
        if self.cursor.eat_newline() {
            return Ok(());
        }
        match self.cursor.bump() {
            None => Ok(()),
            Some(_) => Err(self.error_since(start, "invalid line continuation")),
        }
    }

    /// Scans an identifier, keyword, raw string, or numeric literal.
    #[verifier::rlimit(30)]
    fn word(&mut self) -> (result: Result<TokenKind<'src>, Error>)
        requires
            old(self).wf(),
            old(self).cursor.at() < old(self).text().len(),
            identifier_char(old(self).cursor.dialect, old(self).text()[old(self).cursor.at()]),
        ensures
            final(self).moved_on(*old(self)),
            failure_within(result, old(self).text()),
            result matches Ok(kind) ==> final(self).cursor.at() > old(self).cursor.at() && !(
            kind is Eof),
            result matches Ok(kind) ==> word_token(
                kind,
                old(self).cursor.dialect,
                old(self).text().subrange(old(self).cursor.at() as int, final(self).cursor.at() as int),
            ),
            result matches Ok(kind) ==> kind is String || final(self).cursor.at() == old(self).text().len()
                || !identifier_char(
                old(self).cursor.dialect,
                old(self).text()[final(self).cursor.at() as int],
            ),
            result matches Ok(kind) ==> final(self).clean() ==> token_read(
                old(self).cursor.dialect,
                old(self).text(),
                old(self).cursor.at() as int,
                final(self).cursor.at() as int,
                kind,
            ),
            !old(self).lenient ==> (result is Ok <==> word_accepted(
                old(self).cursor.dialect,
                old(self).text(),
                old(self).cursor.at() as int,
            )),
            !old(self).lenient && !v1_raw_at(
                old(self).cursor.dialect,
                old(self).text(),
                old(self).cursor.at() as int,
            ) ==> (result is Ok ==> final(self).cursor.at() == word_end(
                old(self).cursor.dialect,
                old(self).text(),
                old(self).cursor.at() as int,
            )),
            !old(self).lenient && !v1_raw_at(
                old(self).cursor.dialect,
                old(self).text(),
                old(self).cursor.at() as int,
            ) ==> (result matches Err(error) ==> error.detail() == word_error(
                old(self).cursor.dialect,
                old(self).text(),
                old(self).cursor.at() as int,
            ) && error.at().start_at() == byte_at(old(self).text(), old(self).cursor.at() as int)
                && error.at().stop_at() == byte_at(
                old(self).text(),
                word_error_stop(old(self).cursor.dialect, old(self).text(), old(self).cursor.at() as int),
            )),
    {
        let dialect = self.dialect();
        let start = self.cursor;
        let ghost text = old(self).text();
        let ghost at = start.at() as int;
        proof {
            reveal_strlit("r");
            reveal_strlit("\"");
        }
        let raw_start = dialect == Dialect::V1 && self.cursor.eat("r");
        proof {
            if raw_start {
                assert(text.subrange(at, at + 1)[0] == text[at]);
            } else if dialect == Dialect::V1 && text[at] == 'r' {
                assert(text.subrange(at, at + 1) =~= "r"@);
            }
        }
        if raw_start {
            let hashes = self.cursor.eat_while(CharClass::Hash);
            proof {
                assert forall|i: int| at + 1 <= i < at + 1 + hashes implies #[trigger] text[i] == '#' by {
                    assert(crate::cursor::in_class(CharClass::Hash, dialect, text[i]));
                }
                if at + 1 + hashes < text.len() {
                    assert(!crate::cursor::in_class(CharClass::Hash, dialect, text[at + 1 + hashes]));
                }
                crate::strings::lemma_hash_run(text, at + 1, hashes as int);
            }
            let quoted = self.cursor.eat("\"");
            proof {
                let quote = at + 1 + hashes;
                if quoted {
                    assert(text.subrange(quote, quote + 1)[0] == text[quote]);
                } else if quote < text.len() && text[quote] == '"' {
                    assert(text.subrange(quote, quote + 1) =~= "\""@);
                }
            }
            if quoted {
                let delimiter = Delimiter { hashes: Some(hashes), multiline: false };
                return self.string_body(start, delimiter);
            }
        }
        proof {
            assert(!string_start(dialect, text, at));
        }
        self.cursor = start;
        let signed = match self.cursor.peek() {
            Some(sign) => sign == '+' || sign == '-',
            None => false,
        };
        if signed {
            self.cursor.bump();
        }
        let ghost digits_at = self.cursor.at() as int;
        if let Some(radix) = self.radix_prefix() {
            let result = self.radix_number(start, signed, radix);
            proof {
                if result is Ok {
                    let text = old(self).text();
                    let word = text.subrange(start.at() as int, self.cursor.at() as int);
                    if signed {
                        assert(word.take(3) =~= text.subrange(start.at() as int, digits_at + 2));
                        assert(word.skip(3) =~= text.subrange(digits_at + 2, self.cursor.at() as int));
                    } else {
                        assert(word.skip(2) =~= text.subrange(digits_at + 2, self.cursor.at() as int));
                    }
                }
            }
            return result;
        }
        let digit_next = match self.cursor.peek() {
            Some(digit) => '0' <= digit && digit <= '9',
            None => false,
        };
        if digit_next {
            return self.decimal_number(start);
        }
        self.cursor = start;
        self.cursor.eat_while(CharClass::Identifier);
        loop
            invariant
                self.moved_on(*old(self)),
                self.cursor.dialect == dialect,
                start == old(self).cursor,
                !self.lenient ==> self.cursor.at() == start.at() + class_run(
                    CharClass::Identifier,
                    dialect,
                    self.text(),
                    start.at() as int,
                ),
                self.cursor.at() > start.at(),
                self.cursor.at() == self.text().len() || !identifier_char(
                    dialect,
                    self.text()[self.cursor.at() as int],
                ),
            decreases self.text().len() - self.cursor.at(),
        {
            match self.cursor.peek() {
                Some(character) => {
                    if self.lenient && dialect.is_disallowed(character) {
                        let error = self.error_at_char(character, "disallowed code point");
                        self.fail(error)?;
                        self.cursor.bump();
                        self.cursor.eat_while(CharClass::Identifier);
                    } else {
                        break;
                    }
                },
                None => break,
            }
        }
        let word = self.cursor.slice_from(start);
        proof {
            assert(word@.len() > 0);
        }
        proof {
            if !self.lenient {
                assert(self.cursor.at() == word_end(dialect, text, at));
            }
        }
        let letter_count = word.unicode_len();
        let first_letter = word.get_char(0);
        match dialect.keyword(word) {
            Keyword::Bool(flag) => {
                return Ok(TokenKind::Literal(Literal::Bool(flag)));
            },
            Keyword::Null => {
                return Ok(TokenKind::Literal(Literal::Null));
            },
            Keyword::Reserved => {
                return Err(self.error_since(start, "bare keyword must use `#` prefix"));
            },
            Keyword::Plain => {},
        }
        let second_letter = if letter_count > 1 {
            Some(word.get_char(1))
        } else {
            None
        };
        let third_letter = if letter_count > 2 {
            Some(word.get_char(2))
        } else {
            None
        };
        let looks_numeric = dialect == Dialect::V2 && if first_letter == '+' || first_letter == '-' {
            match second_letter {
                Some(second) => {
                    if '0' <= second && second <= '9' {
                        true
                    } else if second == '.' {
                        match third_letter {
                            Some(third) => '0' <= third && third <= '9',
                            None => false,
                        }
                    } else {
                        false
                    }
                },
                None => false,
            }
        } else if first_letter == '.' {
            match second_letter {
                Some(second) => '0' <= second && second <= '9',
                None => false,
            }
        } else {
            false
        };
        if looks_numeric {
            return Err(self.error_since(start, "invalid identifier"));
        }
        Ok(TokenKind::Identifier(Cow::Borrowed(word)))
    }

    /// Recognizes and consumes a hexadecimal, octal, or binary base prefix.
    fn radix_prefix(&mut self) -> (radix: Option<Radix>)
        requires
            old(self).wf(),
        ensures
            final(self).moved_on(*old(self)),
            radix is None ==> final(self).cursor == old(self).cursor,
            radix is Some ==> final(self).cursor.at() == old(self).cursor.at() + 2,
            radix matches Some(found) ==> found != Radix::Decimal,
            radix == radix_prefix_at(old(self).text(), old(self).cursor.at() as int),
            final(self).errors == old(self).errors,
    {
        proof {
            reveal_strlit("0x");
            reveal_strlit("0o");
            reveal_strlit("0b");
        }
        if self.cursor.eat("0x") {
            Some(Radix::Hexadecimal)
        } else if self.cursor.eat("0o") {
            Some(Radix::Octal)
        } else if self.cursor.eat("0b") {
            Some(Radix::Binary)
        } else {
            None
        }
    }

    /// Scans a non-decimal integer with digits conforming to the given radix.
    fn radix_number(&mut self, start: Cursor<'src>, signed: bool, radix: Radix) -> (result:
        Result<TokenKind<'src>, Error>)
        requires
            old(self).wf(),
            start.wf(),
            start.same_text(old(self).cursor),
            start.at() < old(self).cursor.at(),
        ensures
            final(self).moved_on(*old(self)),
            failure_within(result, old(self).text()),
            result matches Ok(kind) ==> kind matches TokenKind::Literal(Literal::Integer(number))
                && number.radix == radix && number.digits@ == (if signed {
                old(self).text().subrange(start.at() as int, old(self).cursor.at() as int)
            } else {
                Seq::<char>::empty()
            }) + without_underscores(
                old(self).text().subrange(old(self).cursor.at() as int, final(self).cursor.at() as int),
            ),
            result is Ok ==> final(self).cursor.at() == old(self).text().len() || !identifier_char(
                old(self).cursor.dialect,
                old(self).text()[final(self).cursor.at() as int],
            ),
            result is Ok <==> ({
                let text = old(self).text();
                let at = old(self).cursor.at() as int;
                &&& at < text.len()
                &&& radix_digit(radix, text[at])
                &&& word_ends_at(
                    old(self).cursor.dialect,
                    text,
                    at + class_run(CharClass::RadixDigitOrUnderscore(radix), old(self).cursor.dialect, text, at),
                )
            }),
            result is Ok ==> final(self).cursor.at() == old(self).cursor.at() + class_run(
                CharClass::RadixDigitOrUnderscore(radix),
                old(self).cursor.dialect,
                old(self).text(),
                old(self).cursor.at() as int,
            ),
            result matches Err(error) ==> error.detail() == "invalid number"@,
            result matches Err(error) ==> error.at().start_at() == byte_at(old(self).text(), start.at() as int)
                && error.at().stop_at() == byte_at(
                old(self).text(),
                trailing_end(
                    old(self).cursor.dialect,
                    old(self).text(),
                    if old(self).cursor.at() < old(self).text().len() && radix_digit(
                        radix,
                        old(self).text()[old(self).cursor.at() as int],
                    ) {
                        old(self).cursor.at() + class_run(
                            CharClass::RadixDigitOrUnderscore(radix),
                            old(self).cursor.dialect,
                            old(self).text(),
                            old(self).cursor.at() as int,
                        )
                    } else {
                        old(self).cursor.at() as int
                    },
                ),
            ),
    {
        let digits_start = self.cursor;
        let digit_next = match self.cursor.peek() {
            Some(digit) => radix.accepts(digit),
            None => false,
        };
        if !digit_next {
            let dialect = self.dialect();
            self.cursor.eat_while(CharClass::Identifier);
            return Err(self.error_since(start, "invalid number"));
        }
        self.cursor.eat_while(CharClass::RadixDigitOrUnderscore(radix));
        self.reject_trailing_identifier(start, "invalid number")?;
        let raw_digits = self.cursor.slice_from(digits_start);
        let digits = if signed {
            let mut owned = digits_start.slice_from(start).to_owned();
            let cleaned = strip_underscores(raw_digits);
            owned.append(crate::text::cow_str(&cleaned));
            Cow::Owned(owned)
        } else {
            strip_underscores(raw_digits)
        };
        Ok(TokenKind::Literal(Literal::Integer(Integer { radix, digits })))
    }

    /// Scans a decimal integer or floating-point number including optional
    /// exponents.
    #[verifier::rlimit(60)]
    fn decimal_number(&mut self, start: Cursor<'src>) -> (result: Result<TokenKind<'src>, Error>)
        requires
            old(self).wf(),
            start.wf(),
            start.same_text(old(self).cursor),
            start.at() <= old(self).cursor.at(),
            old(self).cursor.at() < old(self).text().len(),
            '0' <= old(self).text()[old(self).cursor.at()] <= '9',
            forall|k: int|
                start.at() <= k < old(self).cursor.at() ==> #[trigger] old(self).text()[k] == '+'
                    || old(self).text()[k] == '-',
        ensures
            final(self).moved_on(*old(self)),
            failure_within(result, old(self).text()),
            result matches Ok(kind) ==> kind is Literal && final(self).cursor.at() > old(
                self,
            ).cursor.at(),
            result matches Ok(kind) ==> ({
                let word = old(self).text().subrange(start.at() as int, final(self).cursor.at() as int);
                &&& fractional(word) ==> (kind matches TokenKind::Literal(Literal::Decimal(text))
                    && text@ == without_underscores(word))
                &&& !fractional(word) ==> (kind matches TokenKind::Literal(Literal::Integer(number))
                    && number.radix == Radix::Decimal && number.digits@ == without_underscores(word))
                &&& (final(self).cursor.at() == old(self).text().len() || !identifier_char(
                    old(self).cursor.dialect,
                    old(self).text()[final(self).cursor.at() as int],
                ))
            }),
            result is Ok <==> word_ends_at(
                old(self).cursor.dialect,
                old(self).text(),
                decimal_end(old(self).cursor.dialect, old(self).text(), old(self).cursor.at() as int),
            ),
            result is Ok ==> final(self).cursor.at() == decimal_end(
                old(self).cursor.dialect,
                old(self).text(),
                old(self).cursor.at() as int,
            ),
            result matches Err(error) ==> error.detail() == "invalid number"@,
            result matches Err(error) ==> error.at().start_at() == byte_at(old(self).text(), start.at() as int)
                && error.at().stop_at() == byte_at(
                old(self).text(),
                trailing_end(
                    old(self).cursor.dialect,
                    old(self).text(),
                    decimal_end(old(self).cursor.dialect, old(self).text(), old(self).cursor.at() as int),
                ),
            ),
    {
        self.cursor.eat_while(CharClass::DigitOrUnderscore);
        proof {
            reveal_strlit(".");
            reveal_strlit("e");
            reveal_strlit("E");
        }
        let ghost dot_at = self.cursor.at() as int;
        let ghost text = old(self).text();
        let mut fraction = self.cursor;
        let dotted = fraction.eat(".") && match fraction.peek() {
            Some(digit) => '0' <= digit && digit <= '9',
            None => false,
        };
        proof {
            if dot_at + 1 < text.len() && text[dot_at] == '.' {
                assert(text.subrange(dot_at, dot_at + 1) =~= "."@);
            }
            if dot_at + 1 <= text.len() && continues_with(text, dot_at, "."@) {
                assert(text.subrange(dot_at, dot_at + 1)[0] == text[dot_at]);
            }
            assert(dotted == (dot_at + 1 < text.len() && text[dot_at] == '.' && ascii_digit(text[dot_at + 1])));
        }
        if dotted {
            proof {
                assert(old(self).text().subrange(dot_at, dot_at + 1)[0] == old(self).text()[dot_at]);
            }
            match self.dialect() {
                Dialect::V1 => fraction.eat_while(CharClass::Digit),
                Dialect::V2 => fraction.eat_while(CharClass::DigitOrUnderscore),
            };
            self.cursor = fraction;
        }
        let ghost mark_at = self.cursor.at() as int;
        let mut exponent = self.cursor;
        let mut has_exponent = false;
        let marked = exponent.eat("e") || exponent.eat("E");
        proof {
            if marked {
                assert(old(self).text().subrange(mark_at, mark_at + 1)[0] == old(self).text()[mark_at]);
            }
            if mark_at < text.len() && text[mark_at] == 'e' {
                assert(text.subrange(mark_at, mark_at + 1) =~= "e"@);
            }
            if mark_at < text.len() && text[mark_at] == 'E' {
                assert(text.subrange(mark_at, mark_at + 1) =~= "E"@);
            }
            assert(marked == (mark_at < text.len() && (text[mark_at] == 'e' || text[mark_at] == 'E')));
        }
        if marked {
            let sign_next = match exponent.peek() {
                Some(sign) => sign == '+' || sign == '-',
                None => false,
            };
            if sign_next {
                exponent.bump();
            }
            let digit_next = match exponent.peek() {
                Some(digit) => '0' <= digit && digit <= '9',
                None => false,
            };
            if digit_next {
                exponent.eat_while(CharClass::DigitOrUnderscore);
                self.cursor = exponent;
                has_exponent = true;
            }
        }
        proof {
            assert(self.cursor.at() == decimal_end(
                old(self).cursor.dialect,
                old(self).text(),
                old(self).cursor.at() as int,
            ));
        }
        self.reject_trailing_identifier(start, "invalid number")?;
        let cleaned = strip_underscores(self.cursor.slice_from(start));
        proof {
            let word = old(self).text().subrange(start.at() as int, self.cursor.at() as int);
            if dotted {
                assert(word[dot_at - start.at()] == '.');
            } else if has_exponent {
                assert(word[mark_at - start.at()] == 'e' || word[mark_at - start.at()] == 'E');
            } else {
                assert forall|k: int| 0 <= k < word.len() implies #[trigger] word[k] != '.'
                    && word[k] != 'e' && word[k] != 'E' by {
                    assert(word[k] == old(self).text()[start.at() + k]);
                }
            }
        }
        if dotted || has_exponent {
            return Ok(TokenKind::Literal(Literal::Decimal(cleaned)));
        }
        Ok(TokenKind::Literal(Literal::Integer(Integer { radix: Radix::Decimal, digits: cleaned })))
    }

    /// Ensures a parsed literal is not immediately followed by illegal
    /// identifier characters.
    pub(crate) fn reject_trailing_identifier(&mut self, start: Cursor<'src>, message: &str) -> (result:
        Result<(), Error>)
        requires
            old(self).wf(),
            start.wf(),
            start.same_text(old(self).cursor),
            start.at() <= old(self).cursor.at(),
        ensures
            final(self).moved_on(*old(self)),
            failure_within(result, old(self).text()),
            result is Ok ==> final(self).cursor == old(self).cursor,
            result is Ok <==> (old(self).cursor.at() == old(self).text().len() || !identifier_char(
                old(self).cursor.dialect,
                old(self).text()[old(self).cursor.at()],
            )),
            result matches Err(error) ==> error.detail() == message@,
            result matches Err(error) ==> error.at().start_at() == byte_at(old(self).text(), start.at() as int)
                && error.at().stop_at() == byte_at(
                old(self).text(),
                old(self).cursor.at() + class_run(
                    CharClass::Identifier,
                    old(self).cursor.dialect,
                    old(self).text(),
                    old(self).cursor.at() as int,
                ),
            ),
    {
        let dialect = self.dialect();
        match self.cursor.peek() {
            Some(following) => {
                if dialect.is_identifier(following) {
                    self.cursor.eat_while(CharClass::Identifier);
                    Err(self.error_since(start, message))
                } else {
                    Ok(())
                }
            },
            None => Ok(()),
        }
    }
}

/// Whether a v1 raw string, an `r`, hashes and a quote, starts at character
/// `k` of `text`.
pub open spec fn v1_raw_at(dialect: Dialect, text: Seq<char>, k: int) -> bool {
    &&& dialect == Dialect::V1
    &&& 0 <= k < text.len()
    &&& text[k] == 'r'
    &&& k + 1 + hash_run(text, k + 1) < text.len()
    &&& text[k + 1 + hash_run(text, k + 1)] == '"'
}

/// Where the digits of a bare word that starts at character `k` begin:
/// after its sign, if it has one.
pub open spec fn digits_at(text: Seq<char>, k: int) -> int {
    if text[k] == '+' || text[k] == '-' {
        k + 1
    } else {
        k
    }
}

/// Whether a bare word starting at `k` is read as a number: a radix prefix
/// or a digit follows its sign.
pub open spec fn numeric_word(text: Seq<char>, k: int) -> bool {
    let d = digits_at(text, k);
    radix_prefix_at(text, d) is Some || (d < text.len() && ascii_digit(text[d]))
}

/// Whether v2 refuses `word` as an identifier because it reads like a number:
/// a sign then a digit, a sign then `.` and a digit, or `.` then a digit.
pub open spec fn looks_numeric(dialect: Dialect, word: Seq<char>) -> bool {
    &&& dialect == Dialect::V2
    &&& word.len() >= 2
    &&& {
        ||| (word[0] == '+' || word[0] == '-') && (ascii_digit(word[1]) || (word[1] == '.'
            && word.len() >= 3 && ascii_digit(word[2])))
        ||| word[0] == '.' && ascii_digit(word[1])
    }
}

/// Where a bare word that starts at character `k` of `text` and is not a v1
/// raw string ends: after the digits of a number, or after its identifier
/// characters.
pub open spec fn word_end(dialect: Dialect, text: Seq<char>, k: int) -> int {
    let d = digits_at(text, k);
    match radix_prefix_at(text, d) {
        Some(radix) => d + 2 + class_run(CharClass::RadixDigitOrUnderscore(radix), dialect, text, d + 2),
        None => if d < text.len() && ascii_digit(text[d]) {
            decimal_end(dialect, text, d)
        } else {
            k + class_run(CharClass::Identifier, dialect, text, k)
        },
    }
}

/// Whether a strict read accepts the bare word that starts at character `k`
/// of `text`: a v1 raw string that closes on its line, a number that no
/// identifier character follows and whose radix digits start right after a
/// radix prefix, a keyword the dialect allows bare, or an identifier that v2
/// does not take for a malformed number.
pub open spec fn word_accepted(dialect: Dialect, text: Seq<char>, k: int) -> bool {
    if v1_raw_at(dialect, text, k) {
        raw_from(
            dialect,
            text,
            k + 2 + hash_run(text, k + 1),
            Delimiter { hashes: Some(hash_run(text, k + 1) as usize), multiline: false },
        ) is Some
    } else {
        let d = digits_at(text, k);
        let word = text.subrange(k, word_end(dialect, text, k));
        match radix_prefix_at(text, d) {
            Some(radix) => d + 2 < text.len() && radix_digit(radix, text[d + 2]) && word_ends_at(
                dialect,
                text,
                word_end(dialect, text, k),
            ),
            None => if d < text.len() && ascii_digit(text[d]) {
                word_ends_at(dialect, text, word_end(dialect, text, k))
            } else {
                !(keyword_of(dialect, word) is Reserved) && (keyword_of(dialect, word) is Plain
                    ==> !looks_numeric(dialect, word))
            },
        }
    }
}

/// The message a strict read of the bare word that starts at `k` fails
/// with, when it is not a v1 raw string.
pub open spec fn word_error(dialect: Dialect, text: Seq<char>, k: int) -> Seq<char> {
    if numeric_word(text, k) {
        "invalid number"@
    } else if keyword_of(dialect, text.subrange(k, word_end(dialect, text, k))) is Reserved {
        "bare keyword must use `#` prefix"@
    } else {
        "invalid identifier"@
    }
}

/// Where the identifier characters that follow character `k` of `text`
/// end: what a refused number report runs to.
pub open spec fn trailing_end(dialect: Dialect, text: Seq<char>, k: int) -> int {
    k + class_run(CharClass::Identifier, dialect, text, k)
}

/// Where the report of a refused bare word that starts at `k`, and is not a
/// v1 raw string, ends: a number's report runs on over the identifier
/// characters that follow its digits, or that follow a radix prefix with no
/// digit after it; any other word's report covers the word.
pub open spec fn word_error_stop(dialect: Dialect, text: Seq<char>, k: int) -> int {
    let d = digits_at(text, k);
    match radix_prefix_at(text, d) {
        Some(radix) => if d + 2 < text.len() && radix_digit(radix, text[d + 2]) {
            trailing_end(dialect, text, word_end(dialect, text, k))
        } else {
            trailing_end(dialect, text, d + 2)
        },
        None => if d < text.len() && ascii_digit(text[d]) {
            trailing_end(dialect, text, word_end(dialect, text, k))
        } else {
            word_end(dialect, text, k)
        },
    }
}

/// Whether `c` is an ASCII digit.
pub open spec fn ascii_digit(c: char) -> bool {
    '0' <= c && c <= '9'
}

/// Where a decimal number whose digits start at character `k` of `text`
/// ends: its digits and underscores, then a fraction when a `.` and a digit
/// follow (digits alone in v1, digits and underscores in v2), then an
/// exponent when an `e` or `E`, an optional sign and a digit follow.
pub open spec fn decimal_end(dialect: Dialect, text: Seq<char>, k: int) -> int {
    let a = k + class_run(CharClass::DigitOrUnderscore, dialect, text, k);
    let b = if a + 1 < text.len() && text[a] == '.' && ascii_digit(text[a + 1]) {
        a + 1 + class_run(
            if dialect == Dialect::V1 {
                CharClass::Digit
            } else {
                CharClass::DigitOrUnderscore
            },
            dialect,
            text,
            a + 1,
        )
    } else {
        a
    };
    let c = if b + 1 < text.len() && (text[b + 1] == '+' || text[b + 1] == '-') {
        b + 2
    } else {
        b + 1
    };
    if b < text.len() && (text[b] == 'e' || text[b] == 'E') && c < text.len() && ascii_digit(text[c]) {
        c + class_run(CharClass::DigitOrUnderscore, dialect, text, c)
    } else {
        b
    }
}

/// Whether nothing that may continue an identifier follows character `k`
/// of `text`.
pub open spec fn word_ends_at(dialect: Dialect, text: Seq<char>, k: int) -> bool {
    k == text.len() || !identifier_char(dialect, text[k])
}

/// The byte offset of character `k` of `text`.
pub open spec fn byte_at(text: Seq<char>, k: int) -> nat {
    crate::text::text_len(text.take(k))
}

/// How many characters a leading byte order mark takes at the start of
/// `text`, which a lexer skips.
pub open spec fn bom_len(text: Seq<char>) -> int {
    if text.len() > 0 && text[0] == '\u{FEFF}' {
        1
    } else {
        0
    }
}

/// Whether the characters `first` and `second` stand at `k` and `k + 1` of
/// `text`.
pub open spec fn pair_at(text: Seq<char>, k: int, first: char, second: char) -> bool {
    0 <= k && k + 1 < text.len() && text[k] == first && text[k + 1] == second
}

/// A two-character pattern continues `text` at `k` exactly when its two
/// characters stand there.
proof fn lemma_pair_at(text: Seq<char>, k: int, pattern: Seq<char>, first: char, second: char)
    requires
        pattern.len() == 2,
        pattern[0] == first,
        pattern[1] == second,
    ensures
        continues_with(text, k, pattern) <==> pair_at(text, k, first, second),
{
    if 0 <= k && k + 2 <= text.len() {
        assert(text.subrange(k, k + 2)[0] == text[k]);
        assert(text.subrange(k, k + 2)[1] == text[k + 1]);
        if pair_at(text, k, first, second) {
            assert(text.subrange(k, k + 2) =~= pattern);
        }
    }
}

/// Where a single-line comment whose text starts at character `k` of `text`
/// ends: after the newline that closes it, or at the end of the text; `None`
/// when a disallowed character comes first.
pub open spec fn line_comment_end(dialect: Dialect, text: Seq<char>, k: int) -> Option<int>
    decreases text.len() - k,
{
    if k < 0 || k >= text.len() {
        Some(text.len() as int)
    } else if newline_at(dialect, text, k) > 0 {
        Some(k + newline_at(dialect, text, k))
    } else if disallowed_char(dialect, text[k]) {
        None
    } else {
        line_comment_end(dialect, text, k + 1)
    }
}

/// Where a block comment read from character `k` of `text` on, `depth`
/// levels deep, ends: after the `*/` that closes its outermost level, each
/// `/*` opening one level more; `None` when the text ends first or a
/// disallowed character comes first.
pub open spec fn block_comment_end(dialect: Dialect, text: Seq<char>, k: int, depth: nat) -> Option<int>
    decreases text.len() - k,
{
    if k < 0 || k >= text.len() {
        None
    } else if pair_at(text, k, '/', '*') {
        block_comment_end(dialect, text, k + 2, depth + 1)
    } else if pair_at(text, k, '*', '/') {
        if depth <= 1 {
            Some(k + 2)
        } else {
            block_comment_end(dialect, text, k + 2, (depth - 1) as nat)
        }
    } else if disallowed_char(dialect, text[k]) {
        None
    } else {
        block_comment_end(dialect, text, k + 1, depth)
    }
}

/// A block comment read from `k` ends after `k`, within the text.
pub proof fn lemma_block_comment_end(dialect: Dialect, text: Seq<char>, k: int, depth: nat)
    ensures
        block_comment_end(dialect, text, k, depth) matches Some(end) ==> k < end <= text.len(),
    decreases text.len() - k,
{
    if 0 <= k < text.len() {
        if pair_at(text, k, '/', '*') {
            lemma_block_comment_end(dialect, text, k + 2, depth + 1);
        } else if pair_at(text, k, '*', '/') {
            if depth > 1 {
                lemma_block_comment_end(dialect, text, k + 2, (depth - 1) as nat);
            }
        } else {
            lemma_block_comment_end(dialect, text, k + 1, depth);
        }
    }
}

/// Where a line continuation whose backslash ends at character `k` of
/// `text` ends: spaces and block comments are skipped, then a single-line
/// comment, a newline or the end of the text closes it; `None` when anything
/// else comes, or a comment in it fails.
pub open spec fn escline_end(dialect: Dialect, text: Seq<char>, k: int) -> Option<int>
    decreases text.len() - k,
{
    if k < 0 {
        None
    } else if pair_at(text, k, '/', '*') {
        match block_comment_end(dialect, text, k + 2, 1) {
            Some(end) => {
                proof {
                    lemma_block_comment_end(dialect, text, k + 2, 1);
                }
                escline_end(dialect, text, end)
            },
            None => None,
        }
    } else if k < text.len() && space_char(dialect, text[k]) {
        escline_end(dialect, text, k + 1)
    } else if pair_at(text, k, '/', '/') {
        line_comment_end(dialect, text, k + 2)
    } else if newline_at(dialect, text, k) > 0 {
        Some(k + newline_at(dialect, text, k))
    } else if k >= text.len() {
        Some(k)
    } else {
        None
    }
}

/// The radix whose prefix, `0x`, `0o` or `0b`, starts at character `k` of
/// `text`, if one does.
pub open spec fn radix_prefix_at(text: Seq<char>, k: int) -> Option<Radix> {
    if continues_with(text, k, "0x"@) {
        Some(Radix::Hexadecimal)
    } else if continues_with(text, k, "0o"@) {
        Some(Radix::Octal)
    } else if continues_with(text, k, "0b"@) {
        Some(Radix::Binary)
    } else {
        None
    }
}

/// Whether `token` reads as its kind says from the characters its range
/// covers.
pub open spec fn token_read_at<'src>(dialect: Dialect, text: Seq<char>, token: Token<'src>) -> bool {
    exists|i: int, j: int|
        0 <= i <= j <= text.len() && byte_at(text, i) == token.span.start_at() && byte_at(text, j)
            == token.span.stop_at() && #[trigger] token_read(dialect, text, i, j, token.kind)
}

/// Whether `kind` is what the token from character `i` up to `j` of `text`
/// reads as, for the kinds that carry a value: a string what `string_read`
/// says, a name the text itself, a literal what its word or `#` keyword
/// says.
pub open spec fn token_read<'src>(dialect: Dialect, text: Seq<char>, i: int, j: int, kind: TokenKind<'src>) -> bool {
    match kind {
        TokenKind::String(value) => string_start(dialect, text, i) && string_read(
            dialect,
            text,
            i,
            j,
            value@,
        ),
        TokenKind::Identifier(value) => !string_start(dialect, text, i) && value@ == text.subrange(
            i,
            j,
        ),
        TokenKind::Literal(_) => word_token(kind, dialect, text.subrange(i, j)) || hash_keyword(
            kind,
            text.subrange(i, j),
        ),
        _ => true,
    }
}

/// Whether `kind` is what a bare word `word` of `dialect` reads as: a
/// keyword's value, a decimal number, an integer in its radix, a raw string
/// in v1, or otherwise an identifier that is the word itself.
pub open spec fn word_token<'src>(kind: TokenKind<'src>, dialect: Dialect, word: Seq<char>) -> bool {
    match kind {
        TokenKind::Identifier(name) => name@ == word && keyword_of(dialect, word) == Keyword::Plain,
        TokenKind::Literal(Literal::Bool(flag)) => keyword_of(dialect, word) == Keyword::Bool(flag),
        TokenKind::Literal(Literal::Null) => keyword_of(dialect, word) == Keyword::Null,
        TokenKind::Literal(Literal::Decimal(number)) => fractional(word) && number@
            == without_underscores(word),
        TokenKind::Literal(Literal::Integer(number)) => if number.radix == Radix::Decimal {
            !fractional(word) && number.digits@ == without_underscores(word)
        } else if word.len() > 0 && (word[0] == '+' || word[0] == '-') {
            number.digits@ == word.take(3) + without_underscores(word.skip(3))
        } else {
            number.digits@ == without_underscores(word.skip(2))
        },
        TokenKind::String(_) => dialect == Dialect::V1,
        _ => false,
    }
}

/// Whether the text of a decimal number has a fraction or an exponent.
pub open spec fn fractional(word: Seq<char>) -> bool {
    word.contains('.') || word.contains('e') || word.contains('E')
}

/// `text` with every underscore removed.
pub open spec fn without_underscores(text: Seq<char>) -> Seq<char> {
    text.filter(|character: char| character != '_')
}

/// Removes formatting underscores from number literals, borrowing when none are
/// present.
fn strip_underscores<'a>(text: &'a str) -> (cleaned: Cow<'a, str>)
    ensures
        cleaned@ == without_underscores(text@),
{
    let count = text.unicode_len();
    let mut owned = String::new();
    let mut found = false;
    let mut index: usize = 0;
    while index < count
        invariant
            count == text@.len(),
            index <= count,
            owned@ == without_underscores(text@.take(index as int)),
            found == exists|j: int| 0 <= j < index && text@[j] == '_',
        decreases count - index,
    {
        let character = text.get_char(index);
        proof {
            assert(text@.take(index + 1) =~= text@.take(index as int).push(character));
            reveal_with_fuel(Seq::filter, 1);
            assert(text@.take(index + 1).drop_last() =~= text@.take(index as int));
        }
        if character == '_' {
            found = true;
        } else {
            push_char(&mut owned, character);
        }
        index += 1;
    }
    proof {
        assert(text@.take(count as int) =~= text@);
    }
    if found {
        Cow::Owned(owned)
    } else {
        proof {
            lemma_filter_keeps_all(text@);
        }
        Cow::Borrowed(text)
    }
}

/// Filtering out underscores from text that has none leaves it unchanged.
proof fn lemma_filter_keeps_all(text: Seq<char>)
    requires
        forall|j: int| 0 <= j < text.len() ==> text[j] != '_',
    ensures
        without_underscores(text) == text,
    decreases text.len(),
{
    reveal_with_fuel(Seq::filter, 1);
    if text.len() > 0 {
        lemma_filter_keeps_all(text.drop_last());
        assert(text.drop_last().push(text.last()) =~= text);
    } else {
        assert(text.filter(|character: char| character != '_') =~= text);
    }
}

} // verus!
