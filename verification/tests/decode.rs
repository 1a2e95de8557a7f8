use std::borrow::Cow;
use std::path::PathBuf;

use knead::ast::{Integer, Literal, Radix, Value};
use knead::decode::{read_integer, Decode, DecodeScalar, Decoder, IntegerFault};
use knead::errors::{Error, ErrorKind};
use knead::span::{Span, Spanned};

fn value(literal: Literal<'static>) -> Value<'static> {
    Value { type_annotation: None, literal, span: Span::new(3, 2) }
}

fn annotated(name: &'static str, literal: Literal<'static>) -> Value<'static> {
    Value {
        type_annotation: Some(Spanned::new(Cow::Borrowed(name), Span::new(0, 4))),
        literal,
        span: Span::new(0, 8),
    }
}

fn integer(radix: Radix, digits: &'static str) -> Literal<'static> {
    Literal::Integer(Integer { radix, digits: Cow::Borrowed(digits) })
}

#[test]
fn integers_decode_within_their_range() {
    assert_eq!(i8::decode(&value(integer(Radix::Decimal, "-128"))).unwrap(), -128);
    assert_eq!(u8::decode(&value(integer(Radix::Hexadecimal, "ff"))).unwrap(), 255);
    assert_eq!(i128::decode(&value(integer(Radix::Decimal, "-170141183460469231731687303715884105728"))).unwrap(), i128::MIN);
    assert_eq!(u128::decode(&value(integer(Radix::Decimal, "340282366920938463463374607431768211455"))).unwrap(), u128::MAX);
    assert_eq!(u16::decode(&value(integer(Radix::Binary, "+101"))).unwrap(), 5);
    assert_eq!(i64::decode(&value(integer(Radix::Octal, "-17"))).unwrap(), -15);
    assert_eq!(usize::decode(&value(integer(Radix::Decimal, "42"))).unwrap(), 42);
    assert_eq!(isize::decode(&value(integer(Radix::Decimal, "-42"))).unwrap(), -42);
    assert_eq!(u32::decode(&value(integer(Radix::Decimal, "4294967295"))).unwrap(), u32::MAX);
    assert_eq!(i16::decode(&value(integer(Radix::Decimal, "-32768"))).unwrap(), i16::MIN);
    assert_eq!(i32::decode(&value(integer(Radix::Decimal, "7"))).unwrap(), 7);
    assert_eq!(u64::decode(&value(integer(Radix::Decimal, "18446744073709551615"))).unwrap(), u64::MAX);
}

fn conversion_message(result: Result<impl std::fmt::Debug, Error>) -> String {
    let error = result.unwrap_err();
    assert_eq!(error.kind(), ErrorKind::Conversion);
    assert_eq!(error.span(), Span::new(3, 2));
    error.message().to_owned()
}

#[test]
fn integers_out_of_range_fail_like_from_str_radix() {
    assert_eq!(
        conversion_message(i8::decode(&value(integer(Radix::Decimal, "128")))),
        "number too large to fit in target type"
    );
    assert_eq!(
        conversion_message(i8::decode(&value(integer(Radix::Decimal, "-129")))),
        "number too small to fit in target type"
    );
    assert_eq!(
        conversion_message(u8::decode(&value(integer(Radix::Decimal, "-1")))),
        "invalid digit found in string"
    );
    assert_eq!(
        conversion_message(u8::decode(&value(integer(Radix::Decimal, "")))),
        "cannot parse integer from empty string"
    );
    assert_eq!(
        conversion_message(u8::decode(&value(integer(Radix::Decimal, "+")))),
        "invalid digit found in string"
    );
    assert_eq!(
        conversion_message(u8::decode(&value(integer(Radix::Decimal, "999x")))),
        "number too large to fit in target type"
    );
}

#[test]
fn read_integer_reports_sign_and_magnitude() {
    assert_eq!(read_integer("-80", Radix::Hexadecimal, true, 127, 128), Ok((true, 128)));
    assert_eq!(read_integer("7f", Radix::Hexadecimal, true, 127, 128), Ok((false, 127)));
    assert_eq!(read_integer("80", Radix::Hexadecimal, true, 127, 128), Err(IntegerFault::TooLarge));
    assert_eq!(read_integer("12z", Radix::Decimal, false, 255, 0), Err(IntegerFault::InvalidDigit));
    assert_eq!(IntegerFault::Empty.message(), "cannot parse integer from empty string");
}

#[test]
fn integer_annotations_must_match_the_type() {
    assert_eq!(u8::decode(&annotated("u8", integer(Radix::Decimal, "5"))).unwrap(), 5);
    let error = u8::decode(&annotated("u16", integer(Radix::Decimal, "5"))).unwrap_err();
    assert_eq!(error.kind(), ErrorKind::Type);
    assert_eq!(error.message(), "expected type \"u8\" but found \"u16\"");
    assert_eq!(error.span(), Span::new(0, 4));
    assert!(u8::type_check(&annotated("u8", Literal::Null)).is_ok());
}

#[test]
fn integers_need_integer_literals() {
    let error = u8::decode(&value(Literal::String(Cow::Borrowed("5")))).unwrap_err();
    assert_eq!(error.kind(), ErrorKind::Type);
    assert_eq!(error.message(), "expected integer scalar but found string");
}

#[test]
fn strings_booleans_and_paths() {
    assert_eq!(String::decode(&value(Literal::String(Cow::Borrowed("hi")))).unwrap(), "hi");
    assert_eq!(String::decode(&annotated("str", Literal::String(Cow::Borrowed("hi")))).unwrap(), "hi");
    let error = String::decode(&annotated("int", Literal::String(Cow::Borrowed("hi")))).unwrap_err();
    assert_eq!(error.message(), "expected no type annotation but found \"int\"");
    let error = String::decode(&value(Literal::Bool(true))).unwrap_err();
    assert_eq!(error.message(), "expected string scalar but found boolean");
    assert!(bool::decode(&value(Literal::Bool(true))).unwrap());
    let error = bool::decode(&annotated("flag", Literal::Bool(true))).unwrap_err();
    assert_eq!(error.kind(), ErrorKind::Type);
    let error = bool::decode(&value(Literal::Null)).unwrap_err();
    assert_eq!(error.message(), "expected boolean scalar but found null");
    assert_eq!(
        PathBuf::decode(&value(Literal::String(Cow::Borrowed("/tmp/x")))).unwrap(),
        PathBuf::from("/tmp/x")
    );
}

#[test]
fn options_and_boxes() {
    assert_eq!(Option::<u8>::decode(&value(Literal::Null)).unwrap(), None);
    assert_eq!(Option::<u8>::decode(&value(integer(Radix::Decimal, "3"))).unwrap(), Some(3));
    assert!(Option::<u8>::decode(&annotated("u16", Literal::Null)).is_err());
    assert_eq!(*Box::<u8>::decode(&value(integer(Radix::Decimal, "9"))).unwrap(), 9);
}

#[test]
fn value_helpers() {
    let text = value(Literal::String(Cow::Borrowed("12")));
    assert_eq!(text.expect_string().unwrap(), "12");
    let parsed = text.parse_str(|text: &str| text.parse::<u32>().map_err(|error| error.to_string()));
    assert_eq!(parsed.unwrap(), 12);
    let bad = value(Literal::String(Cow::Borrowed("x")));
    let error = bad.parse_str(|text: &str| text.parse::<u32>().map_err(|error| error.to_string())).unwrap_err();
    assert_eq!(error.kind(), ErrorKind::Conversion);
    assert_eq!(error.message(), "invalid digit found in string");
    assert_eq!(Literal::Decimal(Cow::Borrowed("1.5")).kind(), "decimal");
    assert!(Radix::Hexadecimal.accepts('F'));
    assert!(!Radix::Octal.accepts('8'));
    assert_eq!(u32::from(Radix::Binary), 2);
    let error = value(Literal::Null).type_mismatch("string");
    assert_eq!(error.message(), "expected string scalar but found null");
}

#[test]
fn decoder_hands_out_arguments_in_order() {
    let document = knead::parse("node 1 2 3").unwrap();
    let node = &document.nodes()[0];
    let mut decoder = Decoder::new(node);
    assert_eq!(decoder.argument().unwrap().span, node.arguments[0].span);
    assert_eq!(decoder.arguments().len(), 2);
    assert!(decoder.argument().is_none());
    assert!(decoder.finish().is_ok());
}

#[test]
fn decoder_claims_properties_once() {
    let document = knead::parse("node a=1 b=2").unwrap();
    let node = &document.nodes()[0];
    let mut decoder = Decoder::new(node);
    assert!(decoder.property("a").is_some());
    assert!(decoder.property("a").is_none());
    let error = decoder.finish().unwrap_err();
    assert_eq!(error.kind(), ErrorKind::Unexpected);
    assert_eq!(error.message(), "unexpected property \"b\"");
    let rest = decoder.properties();
    assert_eq!(rest.len(), 1);
    assert_eq!(rest[0].0, "b");
    assert!(decoder.properties().is_empty());
    assert!(decoder.finish().is_ok());
}

#[test]
fn decoder_children_and_duplicates() {
    let document = knead::parse("node { a 1; b; a 2; c }").unwrap();
    let node = &document.nodes()[0];
    let mut decoder = Decoder::new(node);
    let error = decoder.child("a").unwrap_err();
    assert_eq!(error.kind(), ErrorKind::Duplicate);
    assert_eq!(error.message(), "duplicate child \"a\"");
    assert_eq!(error.span(), node.child_nodes()[2].name.span);
    assert_eq!(decoder.child("b").unwrap().unwrap().name().value(), "b");
    assert!(decoder.child("b").unwrap().is_none());
    let named = decoder.children(Some("a"));
    assert_eq!(named.len(), 2);
    let error = decoder.finish().unwrap_err();
    assert_eq!(error.message(), "unexpected node \"c\"");
    let rest = decoder.children(None);
    assert_eq!(rest.len(), 1);
    assert!(decoder.finish().is_ok());
}

#[test]
fn decoder_finish_reports_unused_arguments_first() {
    let document = knead::parse("node 1 a=2 { c }").unwrap();
    let node = &document.nodes()[0];
    let decoder = Decoder::new(node);
    let error = decoder.finish().unwrap_err();
    assert_eq!(error.message(), "unexpected argument");
    assert_eq!(error.span(), node.arguments[0].span);
}

#[test]
fn decoder_names_and_annotations() {
    let document = knead::parse("(kind)node 5").unwrap();
    let node = &document.nodes()[0];
    let mut decoder = Decoder::new(node);
    assert_eq!(decoder.name().value(), "node");
    assert_eq!(decoder.type_annotation().unwrap().value(), "kind");
    assert_eq!(decoder.span(), node.span);
    let error = decoder.reject_type().unwrap_err();
    assert_eq!(error.message(), "unexpected type annotation \"kind\"");
    decoder.set_name(Spanned::new(Cow::Borrowed("other"), Span::new(0, 0)));
    assert_eq!(decoder.name().value(), "other");
    assert!(std::ptr::eq(decoder.node(), node));
}

#[test]
fn unwrap_argument_needs_exactly_one_argument() {
    let document = knead::parse("a 1\nb\nc 1 2\n(t)d 1").unwrap();
    let nodes = document.nodes();
    let value = Decoder::new(&nodes[0]).unwrap_argument().unwrap();
    assert_eq!(value.span, nodes[0].arguments[0].span);
    let error = Decoder::new(&nodes[1]).unwrap_argument().unwrap_err();
    assert_eq!(error.kind(), ErrorKind::Missing);
    assert_eq!(error.message(), "one argument is required");
    let error = Decoder::new(&nodes[2]).unwrap_argument().unwrap_err();
    assert_eq!(error.message(), "unexpected argument");
    let error = Decoder::new(&nodes[3]).unwrap_argument().unwrap_err();
    assert_eq!(error.kind(), ErrorKind::Unexpected);
    let values = Decoder::new(&nodes[2]).unwrap_arguments().unwrap();
    assert_eq!(values.len(), 2);
}

struct Pair {
    left: u8,
    right: u8,
}

impl Decode for Pair {
    fn decode(decoder: &mut Decoder<'_>) -> Result<Self, Error> {
        let left = match decoder.argument() {
            Some(value) => u8::decode(value)?,
            None => 0,
        };
        let right = match decoder.property("right") {
            Some(value) => u8::decode(value)?,
            None => 0,
        };
        Ok(Pair { left, right })
    }
}

#[test]
fn decode_node_runs_decode_then_finish() {
    let document = knead::parse("pair 1 right=2\npair 1 extra=3").unwrap();
    let pair = Pair::decode_node(&document.nodes()[0]).unwrap();
    assert_eq!((pair.left, pair.right), (1, 2));
    let error = Pair::decode_node(&document.nodes()[1]).err().unwrap();
    assert_eq!(error.message(), "unexpected property \"extra\"");
    assert_eq!(<Pair as Decode>::DIALECT, knead::dialect::Dialect::V2);
    let boxed = Box::<Pair>::decode_node(&document.nodes()[0]).unwrap();
    assert_eq!(boxed.right, 2);
}

#[test]
fn decimal_text_reads_back_as_the_same_integer() {
    for number in i8::MIN..=i8::MAX {
        let text = number.to_string();
        let literal = Integer { radix: Radix::Decimal, digits: Cow::Owned(text.clone()) };
        assert_eq!(literal.to_text(), text);
        assert_eq!(i8::decode(&value(Literal::Integer(literal))).unwrap(), number);
    }
    let wide = Integer { radix: Radix::Hexadecimal, digits: Cow::Borrowed("-80000000") };
    let text = wide.to_text();
    assert_eq!(text, "-2147483648");
    let decimal = Integer { radix: Radix::Decimal, digits: Cow::Owned(text) };
    assert_eq!(i32::decode(&value(Literal::Integer(decimal))).unwrap(), i32::MIN);
}

#[test]
fn conclude_passes_on_the_decode_error() {
    let document = knead::parse("node 1").unwrap();
    let decoder = Decoder::new(&document.nodes()[0]);
    let failure = Error::new(ErrorKind::Missing, Span::new(0, 4), "missing".to_owned());
    let result: Result<u8, Error> = decoder.conclude(Err(failure.clone()));
    assert_eq!(result.unwrap_err().message(), "missing");
}

#[test]
fn conclude_reports_what_was_left_unclaimed() {
    let document = knead::parse("node 1").unwrap();
    let decoder = Decoder::new(&document.nodes()[0]);
    let result: Result<u8, Error> = decoder.conclude(Ok(7));
    let error = result.unwrap_err();
    assert_eq!(error.kind(), ErrorKind::Unexpected);
    assert_eq!(error.message(), "unexpected argument");
}

#[test]
fn conclude_gives_the_value_when_everything_was_claimed() {
    let document = knead::parse("node 1").unwrap();
    let mut decoder = Decoder::new(&document.nodes()[0]);
    assert!(decoder.argument().is_some());
    let result: Result<u8, Error> = decoder.conclude(Ok(7));
    assert_eq!(result.unwrap(), 7);
}
