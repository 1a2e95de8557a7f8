//! The document tree a parse produces: nodes with their arguments,
//! properties and children, and the scalar values they carry.
use std::borrow::Cow;

use vstd::prelude::*;

use crate::errors::{Error, ErrorKind};
use crate::span::{Span, Spanned};
use crate::text::{cow_str, debug_quoted, quoted, same_text};

verus! {

/// A sequence of nodes, either a whole file or the children block of a node.
#[derive(Debug, Default, PartialEq)]
pub struct Document<'src> {
    pub nodes: Vec<Node<'src>>,
    pub span: Span,
}

impl<'src> Document<'src> {
    pub fn nodes(&self) -> (nodes: &[Node<'src>])
        ensures
            nodes@ == self.nodes@,
    {
        self.nodes.as_slice()
    }

    pub fn span(&self) -> (span: Span)
        ensures
            span == self.span,
    {
        self.span
    }
}

/// One node: an optional type annotation, a name, arguments, properties and
/// an optional children block.
#[derive(Debug, PartialEq)]
pub struct Node<'src> {
    pub name: Spanned<Cow<'src, str>>,
    pub type_annotation: Option<Spanned<Cow<'src, str>>>,
    pub arguments: Vec<Value<'src>>,
    pub properties: Vec<Property<'src>>,
    pub children: Option<Document<'src>>,
    pub span: Span,
}

/// The child nodes of `node`, empty when it has no children block.
pub open spec fn child_list<'src>(node: Node<'src>) -> Seq<Node<'src>> {
    match node.children {
        Some(children) => children.nodes@,
        None => Seq::empty(),
    }
}

impl<'src> Node<'src> {
    pub fn name(&self) -> (name: &Spanned<Cow<'src, str>>)
        ensures
            *name == self.name,
    {
        &self.name
    }

    pub fn span(&self) -> (span: Span)
        ensures
            span == self.span,
    {
        self.span
    }

    pub fn children(&self) -> (children: Option<&Document<'src>>)
        ensures
            children == match self.children {
                Some(document) => Some(&document),
                None => None,
            },
    {
        match &self.children {
            Some(document) => Some(document),
            None => None,
        }
    }

    pub fn child_nodes(&self) -> (nodes: &[Self])
        ensures
            nodes@ == child_list(*self),
    {
        match &self.children {
            Some(document) => document.nodes(),
            None => {
                let empty: &[Self] = &[];
                proof {
                    assert(empty@ =~= Seq::<Self>::empty());
                }
                empty
            },
        }
    }

    /// # Errors
    ///
    /// Fails when the node carries a type annotation.
    pub fn reject_type(&self) -> (result: Result<(), Error>)
        ensures
            match self.type_annotation {
                None => result is Ok,
                Some(found) => result matches Err(error) && error.category() == ErrorKind::Unexpected
                    && error.at() == found.span && error.detail() == "unexpected type annotation "@
                    + quoted(found.value@),
            },
    {
        match &self.type_annotation {
            None => Ok(()),
            Some(found) => {
                let mut message = "unexpected type annotation ".to_owned();
                message.append(debug_quoted(cow_str(&found.value)).as_str());
                Err(Error::new(ErrorKind::Unexpected, found.span, message))
            },
        }
    }
}

/// A named value on a node.
#[derive(Clone, Debug, PartialEq)]
pub struct Property<'src> {
    pub name: Spanned<Cow<'src, str>>,
    pub value: Value<'src>,
    pub span: Span,
}

/// A scalar with an optional type annotation.
#[derive(Clone, Debug, PartialEq)]
pub struct Value<'src> {
    pub type_annotation: Option<Spanned<Cow<'src, str>>>,
    pub literal: Literal<'src>,
    pub span: Span,
}

/// The type annotation of a value.
pub open spec fn annotation_of<'src>(value: Value<'src>) -> Option<Spanned<Cow<'src, str>>> {
    value.type_annotation
}

/// The message for a value annotated with `found` where none is allowed.
pub open spec fn no_annotation_message(found: Seq<char>) -> Seq<char> {
    "expected no type annotation but found "@ + quoted(found)
}

/// Whether `name` is one of `accepted`.
pub open spec fn accepted_name(accepted: Seq<&str>, name: Seq<char>) -> bool {
    exists|i: int| 0 <= i < accepted.len() && accepted[i]@ == name
}

impl<'src> Value<'src> {
    /// # Errors
    ///
    /// Fails when the value carries a type annotation.
    pub fn reject_type(&self) -> (result: Result<(), Error>)
        ensures
            match self.type_annotation {
                None => result is Ok,
                Some(found) => result matches Err(error) && error.category() == ErrorKind::Type
                    && error.at() == found.span && error.detail() == no_annotation_message(
                    found.value@,
                ),
            },
    {
        match &self.type_annotation {
            None => Ok(()),
            Some(found) => {
                let mut message = "expected no type annotation but found ".to_owned();
                message.append(debug_quoted(cow_str(&found.value)).as_str());
                Err(Error::new(ErrorKind::Type, found.span, message))
            },
        }
    }

    /// # Errors
    ///
    /// Fails when the value carries a type annotation that is not in `accepted`.
    pub fn expect_type(&self, accepted: &[&str]) -> (result: Result<(), Error>)
        ensures
            match self.type_annotation {
                None => result is Ok,
                Some(found) => if accepted_name(accepted@, found.value@) {
                    result is Ok
                } else {
                    result matches Err(error) && error.category() == ErrorKind::Type && error.at()
                        == found.span && error.detail() == (if accepted@.len() == 1 {
                        "expected type "@ + quoted(accepted@[0]@) + " but found "@ + quoted(
                            found.value@,
                        )
                    } else {
                        no_annotation_message(found.value@)
                    })
                },
            },
    {
        match &self.type_annotation {
            None => Ok(()),
            Some(found) => {
                let name = cow_str(&found.value);
                let mut index: usize = 0;
                while index < accepted.len()
                    invariant
                        index <= accepted@.len(),
                        name@ == found.value@,
                        self.type_annotation == Some(*found),
                        forall|i: int| 0 <= i < index ==> accepted@[i]@ != name@,
                    decreases accepted@.len() - index,
                {
                    if same_text(accepted[index], name) {
                        return Ok(());
                    }
                    index += 1;
                }
                let message = if accepted.len() == 1 {
                    let mut message = "expected type ".to_owned();
                    message.append(debug_quoted(accepted[0]).as_str());
                    message.append(" but found ");
                    message.append(debug_quoted(name).as_str());
                    message
                } else {
                    let mut message = "expected no type annotation but found ".to_owned();
                    message.append(debug_quoted(name).as_str());
                    message
                };
                Err(Error::new(ErrorKind::Type, found.span, message))
            },
        }
    }

    /// # Errors
    ///
    /// Fails when the literal is not a string.
    pub fn expect_string(&self) -> (result: Result<&str, Error>)
        ensures
            match self.literal {
                Literal::String(text) => result matches Ok(found) && found@ == text@,
                _ => result matches Err(error) && self.mismatch("string"@, error),
            },
    {
        match &self.literal {
            Literal::String(text) => Ok(cow_str(text)),
            _ => Err(self.type_mismatch("string")),
        }
    }

    /// # Errors
    ///
    /// Fails when the value is annotated or is not a string; otherwise hands
    /// the text to `parse` and fails with a conversion error carrying the
    /// message `parse` gives back when it fails.
    pub fn parse_str<Item, Parse: Fn(&str) -> Result<Item, String>>(&self, parse: Parse) -> (result:
        Result<Item, Error>)
        requires
            forall|text: &str| call_requires(parse, (text,)),
        ensures
            match annotation_of(*self) {
                Some(_) => result matches Err(error) && error.category() == ErrorKind::Type,
                None => match self.literal {
                    Literal::String(value) => exists|text: &str, outcome: Result<Item, String>|
                        #![trigger call_ensures(parse, (text,), outcome)]
                        text@ == value@ && call_ensures(parse, (text,), outcome) && match outcome {
                            Ok(item) => result == Ok::<Item, Error>(item),
                            Err(message) => result matches Err(error) && error.category()
                                == ErrorKind::Conversion && error.at() == self.span
                                && error.detail() == message@,
                        },
                    _ => result matches Err(error) && self.mismatch("string"@, error),
                },
            },
    {
        self.reject_type()?;
        let text = self.expect_string()?;
        let outcome = parse(text);
        match outcome {
            Ok(item) => Ok(item),
            Err(message) => Err(Error::conversion(self.span, message)),
        }
    }

    /// Whether `error` is the one reported for this value when it is not the
    /// `expected` kind of scalar.
    pub open spec fn mismatch(&self, expected: Seq<char>, error: Error) -> bool {
        &&& error.category() == ErrorKind::Type
        &&& error.at() == self.span
        &&& error.detail() == "expected "@ + expected + " scalar but found "@ + literal_kind(
            self.literal,
        )
    }

    pub fn type_mismatch(&self, expected: &str) -> (error: Error)
        ensures
            self.mismatch(expected@, error),
    {
        let mut message = "expected ".to_owned();
        message.append(expected);
        message.append(" scalar but found ");
        message.append(self.literal.kind());
        Error::new(ErrorKind::Type, self.span, message)
    }
}

/// A scalar value as written in the document.
#[derive(Clone, Debug, PartialEq)]
#[non_exhaustive]
pub enum Literal<'src> {
    String(Cow<'src, str>),
    Integer(Integer<'src>),
    Decimal(Cow<'src, str>),
    Bool(bool),
    Null,
}

/// The name of the kind of scalar a literal is.
pub open spec fn literal_kind<'src>(literal: Literal<'src>) -> Seq<char> {
    match literal {
        Literal::String(_) => "string"@,
        Literal::Integer(_) => "integer"@,
        Literal::Decimal(_) => "decimal"@,
        Literal::Bool(_) => "boolean"@,
        Literal::Null => "null"@,
    }
}

impl<'src> Literal<'src> {
    pub fn kind(&self) -> (kind: &'static str)
        ensures
            kind@ == literal_kind(*self),
    {
        match self {
            Literal::String(_) => "string",
            Literal::Integer(_) => "integer",
            Literal::Decimal(_) => "decimal",
            Literal::Bool(_) => "boolean",
            Literal::Null => "null",
        }
    }
}

/// An integer literal: its radix and its digits with an optional sign.
#[derive(Clone, Debug, PartialEq, Eq)]
pub struct Integer<'src> {
    pub radix: Radix,
    pub digits: Cow<'src, str>,
}

/// The base an integer literal is written in.
#[derive(Clone, Copy, Debug, PartialEq, Eq, Structural)]
pub enum Radix {
    Binary,
    Octal,
    Decimal,
    Hexadecimal,
}

/// The numeric base of a radix.
pub open spec fn radix_base(radix: Radix) -> nat {
    match radix {
        Radix::Binary => 2,
        Radix::Octal => 8,
        Radix::Decimal => 10,
        Radix::Hexadecimal => 16,
    }
}

/// The value of a digit character in any base up to 36, if it is a digit.
pub open spec fn digit_value(c: char) -> Option<nat> {
    if '0' <= c && c <= '9' {
        Some((c as nat - '0' as nat) as nat)
    } else if 'a' <= c && c <= 'z' {
        Some((c as nat - 'a' as nat + 10) as nat)
    } else if 'A' <= c && c <= 'Z' {
        Some((c as nat - 'A' as nat + 10) as nat)
    } else {
        None
    }
}

/// Whether `c` is a digit of the given radix.
pub open spec fn radix_digit(radix: Radix, c: char) -> bool {
    match digit_value(c) {
        Some(v) => v < radix_base(radix),
        None => false,
    }
}

impl Radix {
    pub fn accepts(self, digit: char) -> (accepted: bool)
        ensures
            accepted == radix_digit(self, digit),
    {
        match self {
            Self::Binary => digit == '0' || digit == '1',
            Self::Octal => '0' <= digit && digit <= '7',
            Self::Decimal => '0' <= digit && digit <= '9',
            Self::Hexadecimal => ('0' <= digit && digit <= '9') || ('a' <= digit && digit <= 'f')
                || ('A' <= digit && digit <= 'F'),
        }
    }
}

impl vstd::std_specs::convert::FromSpecImpl<Radix> for u32 {
    open spec fn obeys_from_spec() -> bool {
        true
    }

    open spec fn from_spec(radix: Radix) -> u32 {
        radix_base(radix) as u32
    }
}

impl From<Radix> for u32 {
    fn from(radix: Radix) -> (base: u32) {
        match radix {
            Radix::Binary => 2,
            Radix::Octal => 8,
            Radix::Decimal => 10,
            Radix::Hexadecimal => 16,
        }
    }
}

} // verus!
