//! The two KDL dialects and the character classes and keywords that differ
//! between them.
use vstd::prelude::*;

use crate::ast::Document;
use crate::errors::{syntax_error_in, Error};
use crate::parser::{self, all_trees_read, all_nested_within, depth_limit, document_in_order, document_within, errors_within, sorted_by_offset};
use crate::text::{same_text, text_len};

verus! {

/// Which version of the KDL grammar a document is read with.
#[derive(Clone, Copy, Debug, Default, PartialEq, Eq, Hash, Structural)]
#[non_exhaustive]
pub enum Dialect {
    V1,
    #[default]
    V2,
}

impl Dialect {
    /// # Errors
    ///
    /// Fails at the first syntax error.
    pub fn parse(self, source: &str) -> (result: Result<Document<'_>, Error>)
        ensures
            result matches Ok(document) ==> document.span.start_at() == 0
                && document.span.size() == text_len(source@) && document_within(document, source@)
            && all_nested_within(document.nodes@, depth_limit())
            && document_in_order(document) && all_trees_read(document.nodes@, self, source@),
            result matches Err(error) ==> syntax_error_in(error, source@),
    {
        parser::parse(source, self)
    }

    pub fn parse_lenient(self, source: &str) -> (outcome: (Document<'_>, Vec<Error>))
        ensures
            document_within(outcome.0, source@),
            all_nested_within(outcome.0.nodes@, depth_limit()),
            document_in_order(outcome.0),
            outcome.0.span.start_at() == 0,
            outcome.0.span.size() == text_len(source@) || outcome.0.span.size() == 0,
            errors_within(outcome.1@, source@),
            sorted_by_offset(outcome.1@),
            outcome.1@.len() == 0 ==> outcome.0.span.size() == text_len(source@) && all_trees_read(
                outcome.0.nodes@,
                self,
                source@,
            ),
    {
        parser::parse_lenient(source, self)
    }
}

/// Horizontal whitespace; the byte order mark counts only in v1.
pub open spec fn space_char(dialect: Dialect, c: char) -> bool {
    ||| c == '\u{0009}'
    ||| c == '\u{0020}'
    ||| c == '\u{00A0}'
    ||| c == '\u{1680}'
    ||| c == '\u{202F}'
    ||| c == '\u{205F}'
    ||| c == '\u{3000}'
    ||| ('\u{2000}' <= c && c <= '\u{200A}')
    ||| (dialect == Dialect::V1 && c == '\u{FEFF}')
}

/// Characters that end a line; vertical tab counts only in v2.
pub open spec fn newline_char(dialect: Dialect, c: char) -> bool {
    ||| c == '\u{000A}'
    ||| c == '\u{000D}'
    ||| c == '\u{0085}'
    ||| c == '\u{000C}'
    ||| c == '\u{2028}'
    ||| c == '\u{2029}'
    ||| (dialect == Dialect::V2 && c == '\u{000B}')
}

/// Code points a v2 document may never contain; none are barred in v1.
pub open spec fn disallowed_char(dialect: Dialect, c: char) -> bool {
    &&& dialect == Dialect::V2
    &&& {
        ||| c <= '\u{0008}'
        ||| ('\u{000E}' <= c && c <= '\u{001F}')
        ||| c == '\u{007F}'
        ||| c == '\u{200E}'
        ||| c == '\u{200F}'
        ||| ('\u{202A}' <= c && c <= '\u{202E}')
        ||| ('\u{2066}' <= c && c <= '\u{2069}')
        ||| c == '\u{FEFF}'
    }
}

/// Punctuation that may not appear in a bare identifier.
pub open spec fn identifier_punct(dialect: Dialect, c: char) -> bool {
    match dialect {
        Dialect::V1 => {
            ||| c == '\\'
            ||| c == '('
            ||| c == ')'
            ||| c == '{'
            ||| c == '}'
            ||| c == '<'
            ||| c == '>'
            ||| c == ';'
            ||| c == '['
            ||| c == ']'
            ||| c == '='
            ||| c == ','
            ||| c == '"'
        },
        Dialect::V2 => {
            ||| c == '('
            ||| c == ')'
            ||| c == '{'
            ||| c == '}'
            ||| c == '['
            ||| c == ']'
            ||| c == '/'
            ||| c == '\\'
            ||| c == '"'
            ||| c == '#'
            ||| c == ';'
            ||| c == '='
        },
    }
}

/// Characters that may appear in a bare identifier.
pub open spec fn identifier_char(dialect: Dialect, c: char) -> bool {
    !space_char(dialect, c) && !newline_char(dialect, c) && !disallowed_char(dialect, c)
        && !identifier_punct(dialect, c)
}

/// The character a backslash escape stands for, when it is valid.
pub open spec fn escape_meaning(dialect: Dialect, c: char) -> Option<char> {
    if c == '"' {
        Some('"')
    } else if c == '\\' {
        Some('\\')
    } else if c == 'b' {
        Some('\u{0008}')
    } else if c == 'f' {
        Some('\u{000C}')
    } else if c == 'n' {
        Some('\u{000A}')
    } else if c == 'r' {
        Some('\u{000D}')
    } else if c == 't' {
        Some('\u{0009}')
    } else if c == '/' && dialect == Dialect::V1 {
        Some('/')
    } else if c == 's' && dialect == Dialect::V2 {
        Some('\u{0020}')
    } else {
        None
    }
}

/// What a bare word means in a dialect.
pub enum Keyword {
    Bool(bool),
    Null,
    Reserved,
    Plain,
}

/// The meaning of bare word `word`: v1 reads `true`, `false` and `null` as
/// values, v2 reserves them and the number keywords for their `#` forms.
pub open spec fn keyword_of(dialect: Dialect, word: Seq<char>) -> Keyword {
    if dialect == Dialect::V1 && word == "true"@ {
        Keyword::Bool(true)
    } else if dialect == Dialect::V1 && word == "false"@ {
        Keyword::Bool(false)
    } else if dialect == Dialect::V1 && word == "null"@ {
        Keyword::Null
    } else if dialect == Dialect::V2 && (word == "true"@ || word == "false"@ || word == "null"@
        || word == "inf"@ || word == "nan"@ || word == "-inf"@) {
        Keyword::Reserved
    } else {
        Keyword::Plain
    }
}

impl Dialect {
    pub fn is_space(self, character: char) -> (space: bool)
        ensures
            space == space_char(self, character),
    {
        character == '\u{0009}' || character == '\u{0020}' || character == '\u{00A0}' || character
            == '\u{1680}' || character == '\u{202F}' || character == '\u{205F}' || character
            == '\u{3000}' || ('\u{2000}' <= character && character <= '\u{200A}') || (self
            == Dialect::V1 && character == '\u{FEFF}')
    }

    pub fn is_newline(self, character: char) -> (newline: bool)
        ensures
            newline == newline_char(self, character),
    {
        character == '\u{000A}' || character == '\u{000D}' || character == '\u{0085}' || character
            == '\u{000C}' || character == '\u{2028}' || character == '\u{2029}' || (self
            == Dialect::V2 && character == '\u{000B}')
    }

    pub fn is_disallowed(self, character: char) -> (disallowed: bool)
        ensures
            disallowed == disallowed_char(self, character),
    {
        self == Dialect::V2 && (character <= '\u{0008}' || ('\u{000E}' <= character && character
            <= '\u{001F}') || character == '\u{007F}' || character == '\u{200E}' || character
            == '\u{200F}' || ('\u{202A}' <= character && character <= '\u{202E}') || (
        '\u{2066}' <= character && character <= '\u{2069}') || character == '\u{FEFF}')
    }

    pub fn is_identifier(self, character: char) -> (identifier: bool)
        ensures
            identifier == identifier_char(self, character),
    {
        self.identifier_slow(character)
    }

    /// Classifies an identifier character from the character classes alone.
    pub fn identifier_slow(self, character: char) -> (identifier: bool)
        ensures
            identifier == identifier_char(self, character),
    {
        if self.is_space(character) || self.is_newline(character) || self.is_disallowed(
            character,
        ) {
            return false;
        }
        match self {
            Self::V1 => !(character == '\\' || character == '(' || character == ')' || character
                == '{' || character == '}' || character == '<' || character == '>' || character
                == ';' || character == '[' || character == ']' || character == '=' || character
                == ',' || character == '"'),
            Self::V2 => !(character == '(' || character == ')' || character == '{' || character
                == '}' || character == '[' || character == ']' || character == '/' || character
                == '\\' || character == '"' || character == '#' || character == ';' || character
                == '='),
        }
    }

    /// Maps the character after a backslash to the character it stands for, or
    /// `None` when the escape is not valid in this dialect.
    pub fn decode_escape(self, character: char) -> (decoded: Option<char>)
        ensures
            decoded == escape_meaning(self, character),
    {
        if character == '"' {
            Some('"')
        } else if character == '\\' {
            Some('\\')
        } else if character == 'b' {
            Some('\u{0008}')
        } else if character == 'f' {
            Some('\u{000C}')
        } else if character == 'n' {
            Some('\u{000A}')
        } else if character == 'r' {
            Some('\u{000D}')
        } else if character == 't' {
            Some('\u{0009}')
        } else if character == '/' && self == Dialect::V1 {
            Some('/')
        } else if character == 's' && self == Dialect::V2 {
            Some('\u{0020}')
        } else {
            None
        }
    }

    /// Tells what the bare word `word` means in this dialect.
    pub fn keyword(self, word: &str) -> (meaning: Keyword)
        ensures
            meaning == keyword_of(self, word@),
    {
        match self {
            Self::V1 => {
                if same_text(word, "true") {
                    Keyword::Bool(true)
                } else if same_text(word, "false") {
                    Keyword::Bool(false)
                } else if same_text(word, "null") {
                    Keyword::Null
                } else {
                    Keyword::Plain
                }
            },
            Self::V2 => {
                if same_text(word, "true") || same_text(word, "false") || same_text(word, "null")
                    || same_text(word, "inf") || same_text(word, "nan") || same_text(word, "-inf") {
                    Keyword::Reserved
                } else {
                    Keyword::Plain
                }
            },
        }
    }
}


/// The escapes of KDL strings: in both dialects a backslash before `"`, `\`,
/// `b`, `f`, `n`, `r` or `t` stands for the double quote, the backslash,
/// backspace, form feed, line feed, carriage return and tab; v1 also reads
/// `\/` as a slash and v2 reads `\s` as a space. No other character after a
/// backslash is a simple escape, and no escape stands for a letter.
pub proof fn law_escape_table(dialect: Dialect, c: char)
    ensures
        escape_meaning(dialect, '"') == Some('"'),
        escape_meaning(dialect, '\\') == Some('\\'),
        escape_meaning(dialect, 'b') == Some('\u{0008}'),
        escape_meaning(dialect, 'f') == Some('\u{000C}'),
        escape_meaning(dialect, 'n') == Some('\u{000A}'),
        escape_meaning(dialect, 'r') == Some('\u{000D}'),
        escape_meaning(dialect, 't') == Some('\u{0009}'),
        escape_meaning(Dialect::V1, '/') == Some('/'),
        escape_meaning(Dialect::V1, 's') is None,
        escape_meaning(Dialect::V2, 's') == Some(' '),
        escape_meaning(Dialect::V2, '/') is None,
        escape_meaning(dialect, c) is Some <==> (c == '"' || c == '\\' || c == 'b' || c == 'f'
            || c == 'n' || c == 'r' || c == 't' || (c == '/' && dialect == Dialect::V1) || (c
            == 's' && dialect == Dialect::V2)),
        escape_meaning(dialect, c) matches Some(meaning) ==> !('a' <= meaning <= 'z'),
{
}

/// The bare keywords: v1 reads `true`, `false` and `null` as the two booleans
/// and null, and every other bare word as an identifier; v2 reserves those
/// words and `inf`, `nan` and `-inf` for their `#` forms and reads every
/// other bare word as an identifier.
pub proof fn law_keywords(word: Seq<char>)
    ensures
        keyword_of(Dialect::V1, "true"@) == Keyword::Bool(true),
        keyword_of(Dialect::V1, "false"@) == Keyword::Bool(false),
        keyword_of(Dialect::V1, "null"@) == Keyword::Null,
        keyword_of(Dialect::V1, word) is Plain <==> (word != "true"@ && word != "false"@ && word
            != "null"@),
        !(keyword_of(Dialect::V1, word) is Reserved),
        keyword_of(Dialect::V2, word) is Reserved <==> (word == "true"@ || word == "false"@ || word
            == "null"@ || word == "inf"@ || word == "nan"@ || word == "-inf"@),
        keyword_of(Dialect::V2, word) is Reserved || keyword_of(Dialect::V2, word) is Plain,
{
    reveal_strlit("true");
    reveal_strlit("false");
    reveal_strlit("null");
    assert("false"@.len() != "true"@.len());
    assert("null"@[0] != "true"@[0]);
    assert("null"@.len() != "false"@.len());
}

/// Tab and space separate tokens in both dialects: each is horizontal
/// whitespace, neither a newline nor part of a bare identifier. So are the
/// no-break space and the other Unicode spaces; the byte order mark counts as
/// a space only in v1.
pub proof fn law_horizontal_space(dialect: Dialect, c: char)
    ensures
        space_char(dialect, '\u{0009}') && !identifier_char(dialect, '\u{0009}') && !newline_char(
            dialect,
            '\u{0009}',
        ),
        space_char(dialect, ' ') && !identifier_char(dialect, ' ') && !newline_char(dialect, ' '),
        space_char(dialect, '\u{00A0}') && space_char(dialect, '\u{3000}'),
        ('\u{2000}' <= c <= '\u{200A}') ==> space_char(dialect, c),
        space_char(dialect, '\u{FEFF}') <==> dialect == Dialect::V1,
        space_char(dialect, c) ==> !identifier_char(dialect, c) && !newline_char(dialect, c),
        !space_char(dialect, 'a') && !space_char(dialect, '1'),
{
}

} // verus!
