use knead::derive::attributes::{field_options, Attribute, DefaultValue, Options, Source, Unwrap};
use knead::derive::syntax::{decode_string, expression_end, unescape_cooked, Bracket, Tree};
use knead::derive::{
    container_dialect, delegates, expected_message, kebab, mentions, missing_message,
    normalize_derive, plan_fields, read_order, reject_attributes, add_variant, value_plan, Absent,
    Field, FieldPlan, Lookup, Reading, Variant,
};
use knead::dialect::Dialect;

fn ident(text: &str, site: usize) -> Tree {
    Tree::Ident { text: text.to_owned(), site }
}

fn punct(symbol: char, site: usize) -> Tree {
    Tree::Punct { symbol, joint: false, site }
}

fn joint(symbol: char, site: usize) -> Tree {
    Tree::Punct { symbol, joint: true, site }
}

fn literal(text: &str, site: usize) -> Tree {
    Tree::Literal { text: text.to_owned(), site }
}

fn knead(inner: Vec<Tree>, site: usize) -> Attribute {
    Attribute {
        name: Some("knead".to_owned()),
        group: Some((Bracket::Parenthesis, inner)),
        text: String::new(),
        site,
    }
}

fn group(delimiter: Bracket, inner: Vec<Tree>, site: usize) -> Tree {
    Tree::Group { delimiter, inner, site }
}

#[test]
fn kebab_case_names() {
    assert_eq!(kebab("FooBar"), "foo-bar");
    assert_eq!(kebab("HTTPServer"), "http-server");
    assert_eq!(kebab("snake_case"), "snake-case");
    assert_eq!(kebab("r#type"), "type");
    assert_eq!(kebab("Version2Beta"), "version2-beta");
    assert_eq!(kebab("ABC"), "abc");
    assert_eq!(kebab("already"), "already");
}

#[test]
fn cooked_escapes() {
    assert_eq!(unescape_cooked("a\\nb").as_deref(), Some("a\nb"));
    assert_eq!(unescape_cooked("\\x41\\t\\\\").as_deref(), Some("A\t\\"));
    assert_eq!(unescape_cooked("\\u{1F600}").as_deref(), Some("\u{1F600}"));
    assert_eq!(unescape_cooked("\\u{1_0}").as_deref(), Some("\u{10}"));
    assert_eq!(unescape_cooked("\\u{_1}"), None);
    assert_eq!(unescape_cooked("\\u{}"), None);
    assert_eq!(unescape_cooked("\\u{1234567}"), None);
    assert_eq!(unescape_cooked("\\u{D800}"), None);
    assert_eq!(unescape_cooked("\\x80"), None);
    assert_eq!(unescape_cooked("\\q"), None);
    assert_eq!(unescape_cooked("tail\\"), None);
    assert_eq!(unescape_cooked("a\\\n   \t b").as_deref(), Some("ab"));
    assert_eq!(unescape_cooked("a\\\r\n b").as_deref(), Some("ab"));
    assert_eq!(unescape_cooked("a\\\rb"), None);
    assert_eq!(unescape_cooked("\\'\\\"\\0").as_deref(), Some("'\"\0"));
}

#[test]
fn string_literal_texts() {
    assert_eq!(decode_string("\"a\\tb\"").as_deref(), Some("a\tb"));
    assert_eq!(decode_string("r\"raw\\n\"").as_deref(), Some("raw\\n"));
    assert_eq!(decode_string("r#\"with \"quote\"\"#").as_deref(), Some("with \"quote\""));
    assert_eq!(decode_string("r#\"open\""), None);
    assert_eq!(decode_string("\"x"), None);
    assert_eq!(decode_string("\""), None);
    assert_eq!(decode_string("42"), None);
}

#[test]
fn expressions_end_at_top_level_commas() {
    let simple = vec![ident("a", 0), punct(',', 1), ident("b", 2)];
    assert_eq!(expression_end(&simple), 1);
    let turbofish = vec![
        ident("Vec", 0),
        joint(':', 1),
        punct(':', 2),
        punct('<', 3),
        ident("u8", 4),
        punct(',', 5),
        ident("u16", 6),
        punct('>', 7),
        punct(',', 8),
        ident("x", 9),
    ];
    assert_eq!(expression_end(&turbofish), 8);
    let closure = vec![
        punct('|', 0),
        ident("a", 1),
        punct(',', 2),
        ident("b", 3),
        punct('|', 4),
        ident("a", 5),
        punct(',', 6),
    ];
    assert_eq!(expression_end(&closure), 6);
    let none = vec![ident("a", 0), punct('+', 1), ident("b", 2)];
    assert_eq!(expression_end(&none), 3);
}

#[test]
fn field_options_from_attributes() {
    let attributes = vec![knead(vec![ident("property", 1), punct(',', 2), ident("default", 3)], 0)];
    let options = field_options(&attributes, 99).unwrap();
    assert_eq!(options.source, Source::Property);
    assert!(matches!(options.default, Some(DefaultValue::Implicit)));
    assert!(!options.str_value);

    let attributes = vec![knead(
        vec![
            ident("child", 1),
            group(Bracket::Parenthesis, vec![ident("name", 2), punct('=', 3), literal("\"bind\"", 4)], 5),
            punct(',', 6),
            ident("unwrap", 7),
            group(Bracket::Parenthesis, vec![ident("argument", 8), punct(',', 9), ident("str", 10)], 11),
        ],
        0,
    )];
    let options = field_options(&attributes, 99).unwrap();
    assert_eq!(options.source, Source::Child);
    assert_eq!(options.name.as_deref(), Some("bind"));
    assert_eq!(options.unwrap, Some(Unwrap::Argument));
    assert!(options.str_value);

    let attributes = vec![knead(
        vec![ident("property", 1), punct(',', 2), ident("default", 3), punct('=', 4), literal("8080", 5)],
        0,
    )];
    let options = field_options(&attributes, 99).unwrap();
    match options.default {
        Some(DefaultValue::Expression(sites)) => assert_eq!(sites, vec![5]),
        _ => panic!("expected an expression default"),
    }
}

#[test]
fn field_option_errors() {
    let conflicting = vec![knead(vec![ident("argument", 1), punct(',', 2), ident("property", 3)], 0)];
    let error = field_options(&conflicting, 99).unwrap_err();
    assert_eq!(error.message, "conflicting knead attributes on one field");
    assert_eq!(error.site, Some(3));

    let flatten = vec![knead(vec![ident("flatten", 1), punct(',', 2), ident("default", 3)], 0)];
    let error = field_options(&flatten, 99).unwrap_err();
    assert_eq!(error.message, "flatten cannot be combined with other options");
    assert_eq!(error.site, Some(99));

    let error = field_options(&[], 99).unwrap_err();
    assert_eq!(error.message, "field needs a knead attribute");

    let unknown = vec![knead(vec![ident("colour", 1)], 0)];
    let error = field_options(&unknown, 99).unwrap_err();
    assert_eq!(error.message, "unknown knead attribute `colour`");

    let empty_item = vec![knead(vec![ident("argument", 1), punct(',', 2), punct(',', 3)], 0)];
    let error = field_options(&empty_item, 99).unwrap_err();
    assert_eq!(error.message, "expected a simple name here");

    let brackets = vec![Attribute {
        name: Some("knead".to_owned()),
        group: Some((Bracket::Bracket, vec![ident("argument", 1)])),
        text: String::new(),
        site: 7,
    }];
    let error = field_options(&brackets, 99).unwrap_err();
    assert_eq!(error.message, "expected parentheses here");
    assert_eq!(error.site, Some(7));

    let str_children = vec![knead(vec![ident("children", 1), punct(',', 2), ident("str", 3)], 0)];
    let error = field_options(&str_children, 99).unwrap_err();
    assert_eq!(error.message, "str needs argument property or unwrap argument");

    let unwrap_str = vec![knead(
        vec![
            ident("child", 1),
            punct(',', 2),
            ident("unwrap", 3),
            group(Bracket::Parenthesis, vec![ident("properties", 4), punct(',', 5), ident("str", 6)], 7),
        ],
        0,
    )];
    let error = field_options(&unwrap_str, 99).unwrap_err();
    assert_eq!(error.message, "str fits only unwrap argument");

    let name_assign = vec![knead(vec![ident("name", 1), punct('=', 2), literal("\"x\"", 3)], 0)];
    let error = field_options(&name_assign, 99).unwrap_err();
    assert_eq!(error.message, "name fits only property child and children fields");

    let other = vec![Attribute { name: Some("doc".to_owned()), group: None, text: String::new(), site: 4 }];
    let error = field_options(&other, 99).unwrap_err();
    assert_eq!(error.message, "field needs a knead attribute");
}

fn field(ident_name: Option<&str>, inner: Vec<Tree>, ty_site: usize) -> Field {
    Field { ident: ident_name.map(str::to_owned), attributes: vec![knead(inner, 0)], ty_site }
}

#[test]
fn field_plans_check_names_and_catchalls() {
    let fields = vec![
        field(Some("port_number"), vec![ident("property", 1)], 10),
        field(None, vec![ident("argument", 2)], 11),
        field(Some("rest"), vec![ident("properties", 3)], 12),
        field(Some("inner"), vec![ident("flatten", 4)], 13),
    ];
    let plans = plan_fields(&fields).unwrap();
    assert_eq!(plans[0].name, "port-number");
    assert_eq!(plans[1].name, "argument 1");
    assert_eq!(read_order(&plans), vec![0, 1, 3, 2]);

    let duplicate = vec![
        field(Some("port"), vec![ident("property", 1)], 10),
        field(Some("other"), vec![
            ident("property", 2),
            group(Bracket::Parenthesis, vec![ident("name", 3), punct('=', 4), literal("\"port\"", 5)], 6),
        ], 11),
    ];
    let error = plan_fields(&duplicate).unwrap_err();
    assert_eq!(error.message, "duplicate property name \"port\"");
    assert_eq!(error.site, Some(11));

    let two_catchalls = vec![
        field(Some("a"), vec![ident("arguments", 1)], 10),
        field(Some("b"), vec![ident("arguments", 2)], 11),
    ];
    assert_eq!(plan_fields(&two_catchalls).unwrap_err().message, "multiple arguments fields");

    let late_argument = vec![
        field(Some("a"), vec![ident("arguments", 1)], 10),
        field(Some("b"), vec![ident("argument", 2)], 11),
    ];
    assert_eq!(plan_fields(&late_argument).unwrap_err().message, "argument fields must precede arguments");

    let same_name_other_space = vec![
        field(Some("x"), vec![ident("property", 1)], 10),
        field(Some("x"), vec![ident("child", 2)], 11),
    ];
    assert!(plan_fields(&same_name_other_space).is_ok());
}

#[test]
fn single_unannotated_tuple_field_delegates() {
    let plain = Field { ident: None, attributes: vec![], ty_site: 1 };
    assert!(delegates(&[plain], true));
    let plain = Field { ident: None, attributes: vec![], ty_site: 1 };
    assert!(!delegates(&[plain], false));
    let annotated = field(None, vec![ident("argument", 1)], 2);
    assert!(!delegates(&[annotated], true));
}

#[test]
fn variant_names_and_messages() {
    let mut names = Vec::new();
    let fast = Variant { name: "Fast".to_owned(), attributes: vec![], unit: true, site: 1 };
    let safe = Variant { name: "SafeMode".to_owned(), attributes: vec![], unit: true, site: 2 };
    add_variant(&safe, true, &mut names).unwrap();
    add_variant(&fast, true, &mut names).unwrap();
    assert_eq!(names, vec!["safe-mode".to_owned(), "fast".to_owned()]);
    assert_eq!(expected_message(&names), "expected one of fast, safe-mode");
    let again = Variant { name: "Fast".to_owned(), attributes: vec![], unit: true, site: 3 };
    let error = add_variant(&again, true, &mut names).unwrap_err();
    assert_eq!(error.message, "duplicate decoded variant name");
    assert_eq!(error.site, Some(3));
    let tuple = Variant { name: "Other".to_owned(), attributes: vec![], unit: false, site: 4 };
    assert_eq!(
        add_variant(&tuple, true, &mut names).unwrap_err().message,
        "DecodeScalar requires unit variants"
    );
    assert!(add_variant(&tuple, false, &mut names).is_ok());
    let marked = Variant { name: "Marked".to_owned(), attributes: vec![knead(vec![], 9)], unit: true, site: 5 };
    assert_eq!(add_variant(&marked, true, &mut names).unwrap_err().message, "knead attributes belong on fields");
    assert_eq!(missing_message(Source::Argument, "name"), "argument \"name\" is required");
    assert_eq!(missing_message(Source::Child, "bind"), "child node \"bind\" is required");
    assert_eq!(expected_message(&[]), "expected one of ");
}

#[test]
fn container_attributes_choose_the_dialect() {
    assert_eq!(container_dialect(&[]).unwrap(), Dialect::V2);
    let v1 = Attribute {
        name: Some("knead".to_owned()),
        group: Some((Bracket::Parenthesis, vec![])),
        text: "dialect=\"v1\"".to_owned(),
        site: 1,
    };
    assert_eq!(container_dialect(&[v1]).unwrap(), Dialect::V1);
    let other = Attribute {
        name: Some("knead".to_owned()),
        group: Some((Bracket::Parenthesis, vec![])),
        text: "dialect=\"v3\"".to_owned(),
        site: 2,
    };
    let error = container_dialect(&[other]).unwrap_err();
    assert_eq!(error.message, "the only container attribute is dialect = \"v1\" or \"v2\"");
    let derive = Attribute { name: Some("derive".to_owned()), group: None, text: String::new(), site: 3 };
    assert!(reject_attributes(&[derive]).is_ok());
}

#[test]
fn mentions_looks_inside_groups() {
    let tokens = vec![ident("Vec", 0), punct('<', 1), group(Bracket::Parenthesis, vec![ident("T", 2)], 3), punct('>', 4)];
    assert!(mentions(&tokens, &["T".to_owned()]));
    assert!(!mentions(&tokens, &["U".to_owned()]));
}

#[test]
fn derive_input_loses_generic_defaults_and_discriminants() {
    let input = vec![
        ident("struct", 0),
        ident("S", 1),
        punct('<', 2),
        ident("T", 3),
        punct('=', 4),
        ident("u8", 5),
        punct('>', 6),
        group(Bracket::Brace, vec![], 7),
    ];
    let output = normalize_derive(input).unwrap();
    let sites: Vec<usize> = output.iter().map(|tree| tree.site()).collect();
    assert_eq!(sites, vec![0, 1, 2, 3, 6, 7]);

    let input = vec![
        ident("enum", 0),
        ident("E", 1),
        group(Bracket::Brace, vec![ident("A", 2), punct('=', 3), literal("1", 4), punct(',', 5), ident("B", 6)], 7),
    ];
    let output = normalize_derive(input).unwrap();
    match &output[2] {
        Tree::Group { inner, .. } => {
            let sites: Vec<usize> = inner.iter().map(|tree| tree.site()).collect();
            assert_eq!(sites, vec![2, 5, 6]);
        },
        _ => panic!("expected the enum body"),
    }

    let error = normalize_derive(vec![ident("fn", 0)]).unwrap_err();
    assert_eq!(error.message, "expected a struct or enum");
    assert_eq!(error.site, None);
}

fn plan(source: Source, name: Option<&str>, default: Option<DefaultValue>, unwrap: Option<Unwrap>, str_value: bool, field: &str) -> FieldPlan {
    FieldPlan {
        options: Options { source, name: name.map(str::to_owned), default, unwrap, str_value },
        name: field.to_owned(),
    }
}

#[test]
fn value_plans_of_single_entries() {
    let optional_str = value_plan(&plan(Source::Argument, None, None, None, true, "port"), true);
    assert_eq!(optional_str.lookup, Lookup::Argument);
    assert!(optional_str.inner);
    assert_eq!(optional_str.reading, Reading::Scalar { from_str: true });
    assert!(matches!(optional_str.absent, Absent::Nothing));

    let optional_scalar = value_plan(&plan(Source::Argument, None, None, None, false, "port"), true);
    assert!(!optional_scalar.inner);
    assert!(matches!(optional_scalar.absent, Absent::Nothing));

    let required = value_plan(&plan(Source::Property, None, None, None, false, "port"), false);
    assert_eq!(required.lookup, Lookup::Property);
    assert_eq!(required.reading, Reading::Scalar { from_str: false });
    match required.absent {
        Absent::Missing(message) => assert_eq!(message, "property \"port\" is required"),
        other => panic!("unexpected fallback {other:?}"),
    }

    let defaulted = value_plan(
        &plan(Source::Child, None, Some(DefaultValue::Implicit), Some(Unwrap::Argument), true, "bind"),
        false,
    );
    assert_eq!(defaulted.lookup, Lookup::Child);
    assert_eq!(defaulted.reading, Reading::UnwrapArgument { from_str: true });
    assert!(matches!(defaulted.absent, Absent::Default));

    let optional_child = value_plan(&plan(Source::Child, None, None, None, false, "bind"), true);
    assert!(optional_child.inner);
    assert_eq!(optional_child.reading, Reading::Node);
    assert!(matches!(optional_child.absent, Absent::Nothing));

    let expression = value_plan(
        &plan(Source::Argument, None, Some(DefaultValue::Expression(vec![4, 5])), None, false, "port"),
        false,
    );
    match expression.absent {
        Absent::Expression(sites) => assert_eq!(sites, vec![4, 5]),
        other => panic!("unexpected fallback {other:?}"),
    }
}

#[test]
fn value_plans_of_collections_and_the_node() {
    let named = value_plan(&plan(Source::Children, Some("item"), None, Some(Unwrap::Properties), false, "items"), false);
    assert_eq!(named.lookup, Lookup::Children { filtered: true });
    assert_eq!(named.reading, Reading::UnwrapProperties);
    assert!(matches!(named.absent, Absent::Empty));

    let all = value_plan(&plan(Source::Children, None, Some(DefaultValue::Implicit), None, false, "items"), false);
    assert_eq!(all.lookup, Lookup::Children { filtered: false });
    assert!(matches!(all.absent, Absent::Empty));

    let arguments = value_plan(
        &plan(Source::Arguments, None, Some(DefaultValue::Expression(vec![9])), None, true, "values"),
        false,
    );
    assert_eq!(arguments.lookup, Lookup::Arguments);
    assert_eq!(arguments.reading, Reading::Scalar { from_str: true });
    assert!(matches!(arguments.absent, Absent::Expression(ref sites) if sites == &vec![9]));

    let flatten = value_plan(&plan(Source::Flatten, None, None, None, false, "rest"), false);
    assert_eq!(flatten.lookup, Lookup::Flatten);
    assert_eq!(flatten.reading, Reading::Delegate);
    assert!(matches!(flatten.absent, Absent::Never));

    let name = value_plan(&plan(Source::NodeName, None, None, None, false, "kind"), true);
    assert_eq!(name.lookup, Lookup::NodeName);
    assert_eq!(name.reading, Reading::ParseName);
    assert!(!name.inner);
}
