//! Errors reported by parsing and decoding, each pointing at a source range.
use vstd::prelude::*;

use crate::span::{span_within, Span};
use crate::text::push_char;

verus! {

/// The category an error falls in.
#[non_exhaustive]
#[derive(Clone, Copy, Debug, PartialEq, Eq)]
pub enum ErrorKind {
    Syntax,
    Missing,
    Unexpected,
    Duplicate,
    Type,
    Conversion,
    Unsupported,
}

/// The words an error kind is shown with.
pub open spec fn kind_text(kind: ErrorKind) -> Seq<char> {
    match kind {
        ErrorKind::Syntax => "syntax error"@,
        ErrorKind::Missing => "missing value"@,
        ErrorKind::Unexpected => "unexpected value"@,
        ErrorKind::Duplicate => "duplicate value"@,
        ErrorKind::Type => "type mismatch"@,
        ErrorKind::Conversion => "conversion failure"@,
        ErrorKind::Unsupported => "unsupported value"@,
    }
}

impl ErrorKind {
    pub fn as_str(self) -> (text: &'static str)
        ensures
            text@ == kind_text(self),
    {
        match self {
            Self::Syntax => "syntax error",
            Self::Missing => "missing value",
            Self::Unexpected => "unexpected value",
            Self::Duplicate => "duplicate value",
            Self::Type => "type mismatch",
            Self::Conversion => "conversion failure",
            Self::Unsupported => "unsupported value",
        }
    }
}

/// A parse or decode error: what went wrong, where, and a human readable
/// detail.
#[derive(Clone, Debug, PartialEq, Eq)]
pub struct Error {
    /// Source range the error points at.
    span: Span,
    /// Category the error falls in, used for the display prefix.
    kind: ErrorKind,
    /// Human readable detail shown after the kind.
    message: String,
}

impl Error {
    /// The source range the error points at.
    pub closed spec fn at(&self) -> Span {
        self.span
    }

    /// The category of the error.
    pub closed spec fn category(&self) -> ErrorKind {
        self.kind
    }

    /// The detail text of the error.
    pub closed spec fn detail(&self) -> Seq<char> {
        self.message@
    }

    pub fn new(kind: ErrorKind, span: Span, message: String) -> (error: Self)
        ensures
            error.at() == span,
            error.category() == kind,
            error.detail() == message@,
    {
        Self { span, kind, message }
    }

    pub fn syntax(span: Span, message: &str) -> (error: Self)
        ensures
            error.at() == span,
            error.category() == ErrorKind::Syntax,
            error.detail() == message@,
    {
        Self::new(ErrorKind::Syntax, span, message.to_owned())
    }

    /// An error for a value whose text could not be converted; `message` is
    /// the converter's own description of the failure.
    pub fn conversion(span: Span, message: String) -> (error: Self)
        ensures
            error.at() == span,
            error.category() == ErrorKind::Conversion,
            error.detail() == message@,
    {
        Self::new(ErrorKind::Conversion, span, message)
    }

    pub fn span(&self) -> (span: Span)
        ensures
            span == self.at(),
    {
        self.span
    }

    pub fn kind(&self) -> (kind: ErrorKind)
        ensures
            kind == self.category(),
    {
        self.kind
    }

    pub fn message(&self) -> (message: &str)
        ensures
            message@ == self.detail(),
    {
        self.message.as_str()
    }

    /// The error as it is shown to people:
    /// `<kind> at byte offset <offset> (<message>)`.
    pub fn to_text(&self) -> (shown: String)
        ensures
            shown@ == kind_text(self.category()) + " at byte offset "@ + decimal_text(
                self.at().start_at(),
            ) + " ("@ + self.detail() + ")"@,
    {
        let mut shown = self.kind.as_str().to_owned();
        shown.append(" at byte offset ");
        write_decimal(self.span.offset(), &mut shown);
        shown.append(" (");
        shown.append(self.message.as_str());
        shown.append(")");
        shown
    }
}

/// Whether `error` is a syntax error that points at a range of `text` that
/// starts and ends between characters.
pub open spec fn syntax_error_in(error: Error, text: Seq<char>) -> bool {
    &&& span_within(error.at(), text)
    &&& error.category() == ErrorKind::Syntax
}

/// The decimal digit character for a value below ten.
pub open spec fn digit_char(value: nat) -> char {
    (value + 48) as char
}

/// The decimal notation of a natural number, without leading zeros.
pub open spec fn decimal_text(value: nat) -> Seq<char>
    decreases value,
{
    if value < 10 {
        seq![digit_char(value)]
    } else {
        decimal_text(value / 10).push(digit_char(value % 10))
    }
}

/// Appends the decimal notation of `value` to `out`.
pub fn write_decimal(value: usize, out: &mut String)
    ensures
        final(out)@ == old(out)@ + decimal_text(value as nat),
    decreases value,
{
    if value >= 10 {
        write_decimal(value / 10, out);
    }
    let digit = value % 10;
    let c = digit_to_char(digit);
    push_char(out, c);
    proof {
        assert(old(out)@ + decimal_text(value as nat) =~= (if value >= 10 {
            old(out)@ + decimal_text((value / 10) as nat)
        } else {
            old(out)@
        }).push(digit_char(value as nat % 10)));
    }
}

/// The decimal digit character for a value below ten.
pub(crate) fn digit_to_char(digit: usize) -> (c: char)
    requires
        digit < 10,
    ensures
        c == digit_char(digit as nat),
{
    match digit {
        0 => '0',
        1 => '1',
        2 => '2',
        3 => '3',
        4 => '4',
        5 => '5',
        6 => '6',
        7 => '7',
        8 => '8',
        _ => '9',
    }
}

} // verus!
