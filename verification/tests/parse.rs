use std::borrow::Cow;

use knead::ast::{Integer, Literal, Radix};
use knead::dialect::Dialect;
use knead::errors::ErrorKind;
use knead::span::Span;

#[test]
fn parses_nodes_arguments_properties_and_children() {
    let source = "node 1 \"two\" key=#true { child }";
    let document = knead::parse(source).unwrap();
    assert_eq!(document.nodes().len(), 1);
    assert_eq!(document.span(), Span::new(0, source.len()));
    let node = &document.nodes()[0];
    assert_eq!(node.name().value(), "node");
    assert_eq!(node.arguments.len(), 2);
    assert_eq!(
        node.arguments[0].literal,
        Literal::Integer(Integer { radix: Radix::Decimal, digits: Cow::Borrowed("1") })
    );
    assert_eq!(node.arguments[1].literal, Literal::String(Cow::Borrowed("two")));
    assert_eq!(node.properties.len(), 1);
    assert_eq!(node.properties[0].name.value(), "key");
    assert_eq!(node.properties[0].value.literal, Literal::Bool(true));
    let children = node.child_nodes();
    assert_eq!(children.len(), 1);
    assert_eq!(children[0].name().value(), "child");
    assert_eq!(node.span(), Span::new(0, source.len()));
}

#[test]
fn later_property_replaces_earlier_one_with_same_name() {
    let document = knead::parse("node a=1 b=2 a=3").unwrap();
    let node = &document.nodes()[0];
    assert_eq!(node.properties.len(), 2);
    assert_eq!(node.properties[0].name.value(), "b");
    assert_eq!(node.properties[1].name.value(), "a");
    assert_eq!(
        node.properties[1].value.literal,
        Literal::Integer(Integer { radix: Radix::Decimal, digits: Cow::Borrowed("3") })
    );
}

#[test]
fn slashdash_hides_nodes_entries_and_children() {
    let document = knead::parse("/-hidden 1\nshown /-1 2 /-{ gone }").unwrap();
    assert_eq!(document.nodes().len(), 1);
    let node = &document.nodes()[0];
    assert_eq!(node.name().value(), "shown");
    assert_eq!(node.arguments.len(), 1);
    assert!(node.children().is_none());
}

#[test]
fn type_annotations_are_kept() {
    let document = knead::parse("(tag)node (u8)5").unwrap();
    let node = &document.nodes()[0];
    assert_eq!(node.type_annotation.as_ref().unwrap().value(), "tag");
    assert_eq!(node.arguments[0].type_annotation.as_ref().unwrap().value(), "u8");
    assert_eq!(node.span(), Span::new(0, 15));
}

#[test]
fn radix_literals_keep_their_digits() {
    let document = knead::parse("n 0xff -0b1_01 0o17").unwrap();
    let node = &document.nodes()[0];
    assert_eq!(
        node.arguments[0].literal,
        Literal::Integer(Integer { radix: Radix::Hexadecimal, digits: Cow::Borrowed("ff") })
    );
    assert_eq!(
        node.arguments[1].literal,
        Literal::Integer(Integer { radix: Radix::Binary, digits: Cow::Borrowed("-0b101") })
    );
    assert_eq!(
        node.arguments[2].literal,
        Literal::Integer(Integer { radix: Radix::Octal, digits: Cow::Borrowed("17") })
    );
}

#[test]
fn strict_parse_stops_at_first_error() {
    let source = "node =";
    let error = knead::parse(source).unwrap_err();
    assert_eq!(error.kind(), ErrorKind::Syntax);
    assert!(error.span().end() <= source.len());
}

#[test]
fn bare_keywords_differ_between_dialects() {
    assert!(knead::parse("node true").is_err());
    let document = Dialect::V1.parse("node true null").unwrap();
    let node = &document.nodes()[0];
    assert_eq!(node.arguments[0].literal, Literal::Bool(true));
    assert_eq!(node.arguments[1].literal, Literal::Null);
    let document = Dialect::V2.parse("node #false #null").unwrap();
    let node = &document.nodes()[0];
    assert_eq!(node.arguments[0].literal, Literal::Bool(false));
    assert_eq!(node.arguments[1].literal, Literal::Null);
}

#[test]
fn v1_rejects_bare_identifier_values() {
    assert!(Dialect::V1.parse("node value").is_err());
    let document = Dialect::V2.parse("node value").unwrap();
    assert_eq!(
        document.nodes()[0].arguments[0].literal,
        Literal::String(Cow::Borrowed("value"))
    );
}

#[test]
fn escapes_in_quoted_strings_are_resolved() {
    let document = knead::parse("node \"a\\tb\\u{41}\"").unwrap();
    assert_eq!(
        document.nodes()[0].arguments[0].literal,
        Literal::String(Cow::Owned("a\tbA".to_owned()))
    );
}

#[test]
fn raw_strings_in_both_dialects() {
    let document = knead::parse("node #\"a\\b\"#").unwrap();
    assert_eq!(document.nodes()[0].arguments[0].literal, Literal::String(Cow::Borrowed("a\\b")));
    let document = Dialect::V1.parse("node r#\"a\\b\"#").unwrap();
    assert_eq!(document.nodes()[0].arguments[0].literal, Literal::String(Cow::Borrowed("a\\b")));
}

#[test]
fn multiline_strings_are_dedented() {
    let document = knead::parse("node \"\"\"\n    one\n      two\n    \"\"\"").unwrap();
    assert_eq!(
        document.nodes()[0].arguments[0].literal,
        Literal::String(Cow::Owned("one\n  two".to_owned()))
    );
}

#[test]
fn multiline_escapes_are_decoded_after_the_dedent() {
    let document = knead::parse("node \"\"\"\n  a\\tb\n    c\\u{41}\n  \"\"\"").unwrap();
    assert_eq!(
        document.nodes()[0].arguments[0].literal,
        Literal::String(Cow::Owned("a\tb\n  cA".to_owned()))
    );
}

#[test]
fn multiline_whitespace_escape_joins_lines() {
    let document = knead::parse("node \"\"\"\n  a \\\n   b\n  \"\"\"").unwrap();
    assert_eq!(
        document.nodes()[0].arguments[0].literal,
        Literal::String(Cow::Owned("a b".to_owned()))
    );
}

#[test]
fn multiline_blank_lines_become_empty() {
    let document = knead::parse("node \"\"\"\n  a\n \n\n  b\n  \"\"\"").unwrap();
    assert_eq!(
        document.nodes()[0].arguments[0].literal,
        Literal::String(Cow::Owned("a\n\n\nb".to_owned()))
    );
}

#[test]
fn multiline_raw_string_keeps_backslashes() {
    let document = knead::parse("node #\"\"\"\n    a\\n\n    \"\"\"#").unwrap();
    assert_eq!(
        document.nodes()[0].arguments[0].literal,
        Literal::String(Cow::Owned("a\\n".to_owned()))
    );
}

#[test]
fn multiline_without_indent_is_the_body_itself() {
    let document = knead::parse("node \"\"\"\none\ntwo\n\"\"\"").unwrap();
    assert_eq!(
        document.nodes()[0].arguments[0].literal,
        Literal::String(Cow::Borrowed("one\ntwo"))
    );
}

#[test]
fn multiline_under_indented_line_is_an_error() {
    let error = knead::parse("node \"\"\"\n  a\n b\n  \"\"\"").unwrap_err();
    assert_eq!(error.message(), "multi-line string line under-indented");
}

#[test]
fn multiline_closing_after_text_is_an_error() {
    let error = knead::parse("node \"\"\"\n  a\n  b\"\"\"").unwrap_err();
    assert_eq!(error.message(), "invalid multi-line string closing");
}

#[test]
fn multiline_needs_a_newline_after_the_opening_quotes() {
    let error = knead::parse("node \"\"\"a\n\"\"\"").unwrap_err();
    assert_eq!(error.message(), "multi-line string must start with newline");
}

#[test]
fn lenient_parse_collects_errors_in_source_order() {
    let source = "a 1 =\nb \"ok\"\nc }\nd";
    let (document, errors) = knead::parse_lenient(source);
    assert!(errors.len() >= 2);
    for pair in errors.windows(2) {
        assert!(pair[0].span().offset() <= pair[1].span().offset());
    }
    for error in &errors {
        assert!(error.span().end() <= source.len());
    }
    let names: Vec<&str> = document.nodes().iter().map(|node| node.name().value()).collect();
    assert!(names.contains(&"b"));
    assert!(names.contains(&"d"));
}

#[test]
fn lenient_parse_of_valid_input_has_no_errors() {
    let source = "a 1 { b 2; c }\nd";
    let (document, errors) = knead::parse_lenient(source);
    assert!(errors.is_empty());
    assert_eq!(document, knead::parse(source).unwrap());
}

#[test]
fn lenient_parse_without_errors_reads_like_strict() {
    let source = "(t)node \"a\\tb\" key=#\"raw\"#";
    let (document, errors) = knead::parse_lenient(source);
    assert!(errors.is_empty());
    let node = &document.nodes()[0];
    assert_eq!(node.name().value(), "node");
    assert_eq!(node.type_annotation.as_ref().unwrap().value(), "t");
    assert_eq!(node.arguments[0].literal, Literal::String(Cow::Borrowed("a\tb")));
    assert_eq!(node.properties[0].value.literal, Literal::String(Cow::Borrowed("raw")));
    assert_eq!(document.span(), Span::new(0, source.len()));
}

#[test]
fn lenient_string_skips_an_invalid_escape() {
    let (document, errors) = knead::parse_lenient("node \"a\\qb\"");
    assert_eq!(errors.len(), 1);
    assert_eq!(errors[0].message(), "invalid string escape");
    assert_eq!(
        document.nodes()[0].arguments[0].literal,
        Literal::String(Cow::Owned("ab".to_owned()))
    );
}

#[test]
fn lenient_string_is_closed_at_the_newline() {
    let (document, errors) = knead::parse_lenient("node \"abc\nnext");
    assert_eq!(errors.len(), 1);
    assert_eq!(errors[0].message(), "unterminated string");
    assert_eq!(document.nodes().len(), 2);
    assert_eq!(
        document.nodes()[0].arguments[0].literal,
        Literal::String(Cow::Borrowed("abc"))
    );
    assert_eq!(document.nodes()[1].name().value(), "next");
}

#[test]
fn lenient_multiline_keeps_an_under_indented_line() {
    let (document, errors) = knead::parse_lenient("node \"\"\"\n  a\n b\n  \"\"\"");
    assert_eq!(errors.len(), 1);
    assert_eq!(errors[0].message(), "multi-line string line under-indented");
    assert_eq!(
        document.nodes()[0].arguments[0].literal,
        Literal::String(Cow::Owned("a\nb".to_owned()))
    );
}

#[test]
fn lenient_multiline_with_a_bad_closing_line_keeps_the_lines() {
    let (document, errors) = knead::parse_lenient("node \"\"\"\n  a\n  b\"\"\"");
    assert_eq!(errors.len(), 1);
    assert_eq!(errors[0].message(), "invalid multi-line string closing");
    assert_eq!(
        document.nodes()[0].arguments[0].literal,
        Literal::String(Cow::Owned("  a".to_owned()))
    );
}

#[test]
fn deep_nesting_is_an_error_not_a_crash() {
    let mut source = String::new();
    for _ in 0..300 {
        source.push_str("n {");
    }
    for _ in 0..300 {
        source.push('}');
    }
    let error = knead::parse(&source).unwrap_err();
    assert_eq!(error.message(), "maximum nesting depth exceeded");
}

#[test]
fn comments_and_line_continuations_are_skipped() {
    let document = knead::parse("// comment\nnode /* inline */ 1 \\\n  2 // end\n").unwrap();
    assert_eq!(document.nodes().len(), 1);
    assert_eq!(document.nodes()[0].arguments.len(), 2);
}

#[test]
fn error_text_names_kind_offset_and_message() {
    let error = knead::parse("node =").unwrap_err();
    let shown = error.to_text();
    assert!(shown.starts_with("syntax error at byte offset "));
    assert!(shown.ends_with(&format!("({})", error.message())));
}

#[test]
fn integer_text_in_decimal() {
    let hex = Integer { radix: Radix::Hexadecimal, digits: Cow::Borrowed("-ff") };
    assert_eq!(hex.to_text(), "-255");
    let binary = Integer { radix: Radix::Binary, digits: Cow::Borrowed("1010") };
    assert_eq!(binary.to_text(), "10");
    let zero = Integer { radix: Radix::Decimal, digits: Cow::Borrowed("-0") };
    assert_eq!(zero.to_text(), "0");
    let plus = Integer { radix: Radix::Octal, digits: Cow::Borrowed("+777") };
    assert_eq!(plus.to_text(), "511");
    let wide = Integer {
        radix: Radix::Hexadecimal,
        digits: Cow::Borrowed("ffffffffffffffffffffffffffffffffff"),
    };
    assert_eq!(wide.to_text(), "87112285931760246646623899502532662132735");
}

#[test]
fn span_join_laws_hold_on_examples() {
    let a = Span::new(2, 3);
    let b = Span::new(10, 4);
    let c = Span::new(0, 1);
    assert_eq!(a.join(b), b.join(a));
    assert_eq!(a.join(b), Span::new(2, 12));
    assert_eq!(a.join(b).join(c), a.join(b.join(c)));
    assert_eq!(a.join(a), a);
    assert!(Span::new(3, 0).is_empty());
    assert_eq!(b.end(), 14);
}

fn nested_source(levels: usize) -> String {
    let mut source = String::new();
    for _ in 1..levels {
        source.push_str("n {");
    }
    source.push('n');
    for _ in 1..levels {
        source.push('}');
    }
    source
}

fn levels_of(node: &knead::ast::Node) -> usize {
    1 + node.child_nodes().iter().map(levels_of).max().unwrap_or(0)
}

#[test]
fn nesting_stops_at_the_depth_limit() {
    let allowed = nested_source(257);
    let document = knead::parse(&allowed).unwrap();
    assert_eq!(levels_of(&document.nodes()[0]), 257);
    let error = knead::parse(&nested_source(258)).unwrap_err();
    assert_eq!(error.message(), "maximum nesting depth exceeded");
    let deep = nested_source(300);
    let (document, errors) = knead::parse_lenient(&deep);
    assert!(!errors.is_empty());
    assert!(document.nodes().iter().all(|node| levels_of(node) <= 257));
}

#[test]
fn parsed_property_names_are_distinct() {
    let (document, _) = knead::parse_lenient("node a=1 a=2 b=3 a=4 b=5\nother x=1 y=2 x=3");
    for node in document.nodes() {
        for (i, first) in node.properties.iter().enumerate() {
            for second in &node.properties[i + 1..] {
                assert_ne!(first.name.value(), second.name.value());
            }
        }
    }
    assert_eq!(document.nodes()[0].properties.len(), 2);
    assert_eq!(document.nodes()[1].properties.len(), 2);
}

fn covers(outer: Span, inner: Span) -> bool {
    outer.offset() <= inner.offset() && inner.end() <= outer.end()
}

fn check_tree(node: &knead::ast::Node) {
    assert!(covers(node.span(), node.name().span()));
    for argument in &node.arguments {
        assert!(covers(node.span(), argument.span));
    }
    for property in &node.properties {
        assert!(covers(node.span(), property.span));
    }
    if let Some(children) = node.children() {
        assert!(covers(node.span(), children.span()));
        let nodes = children.nodes();
        for pair in nodes.windows(2) {
            assert!(pair[0].span().end() <= pair[1].span().offset());
        }
        for child in nodes {
            assert!(covers(children.span(), child.span()));
            check_tree(child);
        }
    }
}

#[test]
fn nodes_follow_the_source_order() {
    let source = "(t)a 1 key=\"v\" { b 2; c { d } }\ne x=1 { f }\ng";
    let document = knead::parse(source).unwrap();
    let nodes = document.nodes();
    assert_eq!(nodes.len(), 3);
    for pair in nodes.windows(2) {
        assert!(pair[0].span().end() <= pair[1].span().offset());
    }
    for node in nodes {
        assert!(covers(document.span(), node.span()));
        check_tree(node);
    }
    assert_eq!(nodes[0].span(), Span::new(0, 31));
}

#[test]
fn names_and_values_are_what_the_source_says() {
    let source = "(kind)node \"quoted \\u{41}\\n\" #\"raw \\n\"# bare key=0x1F other=(t)#true \"q k\"=-2.5e3";
    let document = knead::parse(source).unwrap();
    let node = &document.nodes()[0];
    let name = node.name();
    assert_eq!(name.value(), "node");
    assert_eq!(&source[name.span().offset()..name.span().end()], "node");
    let annotation = node.type_annotation.as_ref().unwrap();
    assert_eq!(annotation.value(), "kind");
    assert_eq!(&source[annotation.span().offset()..annotation.span().end()], "kind");
    assert_eq!(node.arguments[0].literal, Literal::String(Cow::Borrowed("quoted A\n")));
    assert_eq!(node.arguments[1].literal, Literal::String(Cow::Borrowed("raw \\n")));
    assert_eq!(node.arguments[2].literal, Literal::String(Cow::Borrowed("bare")));
    let key = &node.properties[0];
    assert_eq!(key.name.value(), "key");
    assert_eq!(
        key.value.literal,
        Literal::Integer(Integer { radix: Radix::Hexadecimal, digits: Cow::Borrowed("1F") })
    );
    let other = &node.properties[1];
    assert_eq!(other.value.literal, Literal::Bool(true));
    assert_eq!(other.value.type_annotation.as_ref().unwrap().value(), "t");
    let quoted = &node.properties[2];
    assert_eq!(quoted.name.value(), "q k");
    assert_eq!(quoted.value.literal, Literal::Decimal(Cow::Borrowed("-2.5e3")));
}

#[test]
fn bare_true_is_a_value_in_v1_and_an_error_in_v2() {
    let document = Dialect::V1.parse("node true").unwrap();
    assert_eq!(document.nodes()[0].arguments[0].literal, Literal::Bool(true));
    let error = Dialect::V2.parse("node true").unwrap_err();
    assert_eq!(error.message(), "bare keyword must use `#` prefix");
    assert_eq!(error.span(), Span::new(5, 4));
    assert_eq!(error.kind(), ErrorKind::Syntax);
}

#[test]
fn a_word_that_looks_numeric_is_refused_only_in_v2() {
    let error = Dialect::V2.parse("node -.5").unwrap_err();
    assert_eq!(error.message(), "invalid identifier");
    assert_eq!(error.span(), Span::new(5, 3));
    let document = Dialect::V1.parse("-.5").unwrap();
    assert_eq!(document.nodes()[0].name().value(), "-.5");
}

#[test]
fn decimal_with_underscores_per_dialect() {
    let document = Dialect::V2.parse("node 1_000.5_0e+1_0").unwrap();
    assert_eq!(
        document.nodes()[0].arguments[0].literal,
        Literal::Decimal(Cow::Owned("1000.50e+10".to_owned()))
    );
    let error = Dialect::V1.parse("node 1_000.5_0e+1_0").unwrap_err();
    assert_eq!(error.message(), "invalid number");
    assert_eq!(error.span(), Span::new(5, 14));
}

#[test]
fn slashdashed_children_block_per_dialect() {
    let document = Dialect::V2.parse("a /-{ b } { c }").unwrap();
    let children = document.nodes()[0].child_nodes();
    assert_eq!(children.len(), 1);
    assert_eq!(children[0].name().value(), "c");
    let error = Dialect::V1.parse("a /-{ b } { c }").unwrap_err();
    assert_eq!(error.message(), "unexpected children block");
    assert_eq!(error.span(), Span::new(10, 5));
}

#[test]
fn node_span_joins_annotation_name_entries_and_children() {
    let document = knead::parse("(t)node 1 k=2 { c }").unwrap();
    assert_eq!(document.nodes()[0].span(), Span::new(0, 19));
    let property = &document.nodes()[0].properties[0];
    assert_eq!(property.span, Span::new(10, 3));
}

#[test]
fn strings_borrow_unless_an_escape_changes_them() {
    let document = knead::parse("node \"plain\" \"a\\nb\" #\"r\\aw\"#").unwrap();
    let arguments = &document.nodes()[0].arguments;
    assert!(matches!(&arguments[0].literal, Literal::String(Cow::Borrowed("plain"))));
    assert!(matches!(&arguments[1].literal, Literal::String(Cow::Owned(_))));
    assert!(matches!(&arguments[2].literal, Literal::String(Cow::Borrowed("r\\aw"))));
}

#[test]
fn parse_errors_are_syntax_errors() {
    let error = knead::parse("node \"open").unwrap_err();
    assert_eq!(error.kind(), ErrorKind::Syntax);
    let (_, errors) = knead::parse_lenient("a }\nb \"x\\q\"");
    assert!(!errors.is_empty());
    for error in &errors {
        assert_eq!(error.kind(), ErrorKind::Syntax);
    }
}
