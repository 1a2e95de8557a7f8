//! The decisions behind the `Decode` and `DecodeScalar` derives: reading the
//! field attributes, checking that the fields fit together, and naming what
//! the generated code looks up.
pub mod attributes;
pub mod syntax;

use vstd::prelude::*;

use crate::derive::attributes::{
    error_is, field_options, field_outcome, knead_attribute, options_fit, options_settings,
    Attribute, Complaint, DefaultValue, Options, Settings, Source, Unwrap,
};
use crate::derive::syntax::{depth_after, punct_is, Bracket, DeriveError, Tree};
use crate::dialect::Dialect;
use crate::errors::{decimal_text, write_decimal};
use crate::text::{push_char, quoted, same_text};

verus! {

/// Whether `c` has the Unicode `Uppercase` property.
pub uninterp spec fn uppercase(c: char) -> bool;

/// Whether `c` has the Unicode `Lowercase` property.
pub uninterp spec fn lowercase(c: char) -> bool;

/// Whether `c` is numeric in the sense of `char::is_numeric`.
pub uninterp spec fn numeric(c: char) -> bool;

/// The characters `char::to_lowercase` gives for `c`.
pub uninterp spec fn lowered(c: char) -> Seq<char>;

/// `char::is_uppercase`; the result is named, not described.
#[verifier::external_body]
fn is_uppercase(c: char) -> (found: bool)
    ensures
        found == uppercase(c),
{
    c.is_uppercase()
}

/// `char::is_lowercase`; the result is named, not described.
#[verifier::external_body]
fn is_lowercase(c: char) -> (found: bool)
    ensures
        found == lowercase(c),
{
    c.is_lowercase()
}

/// `char::is_numeric`; the result is named, not described.
#[verifier::external_body]
fn is_numeric(c: char) -> (found: bool)
    ensures
        found == numeric(c),
{
    c.is_numeric()
}

/// `char::to_lowercase`, written out as a string; the characters are named,
/// not described.
#[verifier::external_body]
fn to_lowercase(c: char) -> (text: String)
    ensures
        text@ == lowered(c),
{
    c.to_lowercase().to_string()
}

/// Whether a hyphen goes before the letter at `index` of `letters`: an
/// uppercase letter that follows something other than an underscore, and
/// either follows a lowercase letter or digit or comes before a lowercase
/// letter.
pub open spec fn breaks_before(letters: Seq<char>, index: int) -> bool {
    &&& uppercase(letters[index])
    &&& index > 0
    &&& letters[index - 1] != '_'
    &&& (lowercase(letters[index - 1]) || numeric(letters[index - 1]) || (index + 1
        < letters.len() && lowercase(letters[index + 1])))
}

/// What the letter at `index` of `letters` becomes in kebab case.
pub open spec fn kebab_piece(letters: Seq<char>, index: int) -> Seq<char> {
    if letters[index] == '_' {
        seq!['-']
    } else if breaks_before(letters, index) {
        seq!['-'] + lowered(letters[index])
    } else {
        lowered(letters[index])
    }
}

/// The kebab case of the first `n` letters of `letters`.
pub open spec fn kebab_prefix(letters: Seq<char>, n: int) -> Seq<char>
    decreases n,
{
    if n <= 0 {
        Seq::empty()
    } else {
        kebab_prefix(letters, n - 1) + kebab_piece(letters, n - 1)
    }
}

/// A Rust name without the `r#` of a raw identifier.
pub open spec fn unraw(name: Seq<char>) -> Seq<char> {
    if name.len() >= 2 && name[0] == 'r' && name[1] == '#' {
        name.skip(2)
    } else {
        name
    }
}

/// The kebab case of a Rust name.
pub open spec fn kebab_case(name: Seq<char>) -> Seq<char> {
    kebab_prefix(unraw(name), unraw(name).len() as int)
}

/// Converts a Rust identifier from camel or snake case into kebab case for KDL
/// naming.
pub fn kebab(name: &str) -> (result: String)
    ensures
        result@ == kebab_case(name@),
{
    let count = name.unicode_len();
    let start: usize = if count >= 2 && name.get_char(0) == 'r' && name.get_char(1) == '#' {
        2
    } else {
        0
    };
    let bare = name.substring_char(start, count);
    proof {
        assert(bare@ =~= unraw(name@));
    }
    let letters = bare.unicode_len();
    let mut result = String::new();
    let mut index: usize = 0;
    while index < letters
        invariant
            letters == bare@.len(),
            index <= letters,
            result@ == kebab_prefix(bare@, index as int),
        decreases letters - index,
    {
        let character = bare.get_char(index);
        if character == '_' {
            push_char(&mut result, '-');
        } else {
            if is_uppercase(character) && index > 0 {
                let previous = bare.get_char(index - 1);
                if previous != '_' {
                    let previous_lower = is_lowercase(previous) || is_numeric(previous);
                    let next_lower = index + 1 < letters && is_lowercase(
                        bare.get_char(index + 1),
                    );
                    if previous_lower || next_lower {
                        push_char(&mut result, '-');
                    }
                }
            }
            let lower = to_lowercase(character);
            result.append(lower.as_str());
        }
        proof {
            assert(result@ =~= kebab_prefix(bare@, index + 1));
        }
        index = index + 1;
    }
    result
}

/// Whether `tree`, or any tree inside it, is an identifier in `names`.
pub open spec fn tree_mentions(tree: Tree, names: Seq<Seq<char>>) -> bool
    decreases tree,
{
    match tree {
        Tree::Ident { text, .. } => names.contains(text@),
        Tree::Group { inner, .. } => exists|k: int|
            0 <= k < inner@.len() && tree_mentions(#[trigger] inner@[k], names),
        _ => false,
    }
}

/// The texts of `names`.
pub open spec fn texts(names: Seq<String>) -> Seq<Seq<char>> {
    names.map_values(|name: String| name@)
}

/// Whether `text` is one of `names`.
fn contains_text(names: &[String], text: &str) -> (found: bool)
    ensures
        found == texts(names@).contains(text@),
{
    let mut index: usize = 0;
    while index < names.len()
        invariant
            index <= names@.len(),
            forall|k: int| 0 <= k < index ==> names@[k]@ != text@,
        decreases names@.len() - index,
    {
        if same_text(names[index].as_str(), text) {
            proof {
                assert(texts(names@)[index as int] == text@);
            }
            return true;
        }
        index = index + 1;
    }
    proof {
        if texts(names@).contains(text@) {
            let k = choose|k: int| 0 <= k < texts(names@).len() && texts(names@)[k] == text@;
            assert(names@[k]@ == text@);
        }
    }
    false
}

/// Checks whether `tree`, or any tree inside it, is an identifier in `names`.
fn tree_mentions_names(tree: &Tree, names: &[String]) -> (found: bool)
    ensures
        found == tree_mentions(*tree, texts(names@)),
    decreases tree,
{
    match tree {
        Tree::Ident { text, .. } => contains_text(names, text.as_str()),
        Tree::Group { inner, .. } => {
            let mut index: usize = 0;
            while index < inner.len()
                invariant
                    index <= inner@.len(),
                    *tree is Group,
                    tree->Group_inner == *inner,
                    forall|k: int|
                        0 <= k < index ==> !tree_mentions(#[trigger] inner@[k], texts(names@)),
                decreases inner@.len() - index,
            {
                proof {
                    assert(decreases_to!(*tree => tree->Group_inner));
                    assert(decreases_to!(tree->Group_inner => tree->Group_inner@));
                    assert(decreases_to!(tree->Group_inner@ => inner@[index as int]));
                }
                if tree_mentions_names(&inner[index], names) {
                    return true;
                }
                index = index + 1;
            }
            false
        },
        _ => false,
    }
}

/// Checks whether any identifier matching the set of names appears within the
/// token stream.
pub fn mentions(tokens: &[Tree], names: &[String]) -> (found: bool)
    ensures
        found == exists|k: int|
            0 <= k < tokens@.len() && tree_mentions(#[trigger] tokens@[k], texts(names@)),
{
    let mut index: usize = 0;
    while index < tokens.len()
        invariant
            index <= tokens@.len(),
            forall|k: int| 0 <= k < index ==> !tree_mentions(#[trigger] tokens@[k], texts(names@)),
        decreases tokens@.len() - index,
    {
        if tree_mentions_names(&tokens[index], names) {
            return true;
        }
        index = index + 1;
    }
    false
}

/// Ensures that no misplaced `knead` attributes appear on containers or enum
/// variants.
pub fn reject_attributes(attributes: &[Attribute]) -> (result: Result<(), DeriveError>)
    ensures
        result is Ok <==> forall|k: int|
            0 <= k < attributes@.len() ==> !knead_attribute(#[trigger] attributes@[k]),
        result matches Err(error) ==> exists|k: int|
            0 <= k < attributes@.len() && knead_attribute(#[trigger] attributes@[k])
                && (forall|j: int| 0 <= j < k ==> !knead_attribute(attributes@[j]))
                && error.site == Some(attributes@[k].site) && error.message@
                == "knead attributes belong on fields"@,
{
    let mut index: usize = 0;
    while index < attributes.len()
        invariant
            index <= attributes@.len(),
            forall|k: int| 0 <= k < index ==> !knead_attribute(#[trigger] attributes@[k]),
        decreases attributes@.len() - index,
    {
        if crate::derive::attributes::is_knead(&attributes[index]) {
            return Err(DeriveError::at(attributes[index].site, "knead attributes belong on fields"));
        }
        index = index + 1;
    }
    Ok(())
}

/// The dialect the container attributes `attributes` choose: the last
/// `knead(dialect = ...)` of them, or v2 when there is none; or the error for
/// the first `knead` attribute that is not such a choice.
pub open spec fn chosen_dialect(attributes: Seq<Attribute>, n: int) -> Result<Dialect, DeriveError>
    decreases n,
{
    if n <= 0 {
        Ok(Dialect::V2)
    } else {
        match chosen_dialect(attributes, n - 1) {
            Ok(before) => {
                let attribute = attributes[n - 1];
                if !knead_attribute(attribute) {
                    Ok(before)
                } else if !(attribute.group matches Some((delimiter, _)) && delimiter
                    == Bracket::Parenthesis) {
                    Err(
                        DeriveError {
                            site: Some(attribute.site),
                            message: arbitrary(),
                        },
                    )
                } else if attribute.text@ == "dialect=\"v1\""@ {
                    Ok(Dialect::V1)
                } else if attribute.text@ == "dialect=\"v2\""@ {
                    Ok(Dialect::V2)
                } else {
                    Err(
                        DeriveError {
                            site: Some(attribute.site),
                            message: arbitrary(),
                        },
                    )
                }
            },
            Err(error) => Err(error),
        }
    }
}

/// The message for a container `knead` attribute at index `index` that is
/// not a dialect choice.
pub open spec fn dialect_complaint(attribute: Attribute) -> Seq<char> {
    if !(attribute.group matches Some((delimiter, _)) && delimiter == Bracket::Parenthesis) {
        "expected parentheses here"@
    } else {
        "the only container attribute is dialect = \"v1\" or \"v2\""@
    }
}

/// Parses the container-level dialect attribute and returns the chosen
/// dialect.
pub fn container_dialect(attributes: &[Attribute]) -> (result: Result<Dialect, DeriveError>)
    ensures
        match chosen_dialect(attributes@, attributes@.len() as int) {
            Ok(dialect) => result == Ok::<Dialect, DeriveError>(dialect),
            Err(expected) => result matches Err(error) && error.site == expected.site
                && exists|k: int|
                0 <= k < attributes@.len() && Some(#[trigger] attributes@[k].site) == error.site
                    && error.message@ == dialect_complaint(attributes@[k]),
        },
{
    proof {
        reveal_strlit("dialect=\"v1\"");
        reveal_strlit("dialect=\"v2\"");
    }
    let mut dialect = Dialect::V2;
    let mut index: usize = 0;
    while index < attributes.len()
        invariant
            index <= attributes@.len(),
            chosen_dialect(attributes@, index as int) == Ok::<Dialect, DeriveError>(dialect),
        decreases attributes@.len() - index,
    {
        let attribute = &attributes[index];
        if crate::derive::attributes::is_knead(attribute) {
            let parenthesized = match &attribute.group {
                Some((delimiter, _)) => *delimiter == Bracket::Parenthesis,
                None => false,
            };
            if !parenthesized {
                proof {
                    lemma_dialect_error_stays(attributes@, index as int + 1, attributes@.len() as int);
                }
                return Err(DeriveError::at(attribute.site, "expected parentheses here"));
            }
            if same_text(attribute.text.as_str(), "dialect=\"v1\"") {
                dialect = Dialect::V1;
            } else if same_text(attribute.text.as_str(), "dialect=\"v2\"") {
                dialect = Dialect::V2;
            } else {
                proof {
                    lemma_dialect_error_stays(attributes@, index as int + 1, attributes@.len() as int);
                }
                return Err(
                    DeriveError::at(
                        attribute.site,
                        "the only container attribute is dialect = \"v1\" or \"v2\"",
                    ),
                );
            }
        }
        index = index + 1;
    }
    Ok(dialect)
}

/// Once the dialect choice fails, it stays failed with the same error.
proof fn lemma_dialect_error_stays(attributes: Seq<Attribute>, n: int, m: int)
    requires
        0 <= n <= m,
        chosen_dialect(attributes, n) is Err,
    ensures
        chosen_dialect(attributes, m) == chosen_dialect(attributes, n),
    decreases m - n,
{
    if n < m {
        lemma_dialect_error_stays(attributes, n, m - 1);
    }
}


/// A field of a struct or variant as the derive sees it.
#[derive(Debug)]
pub struct Field {
    /// The field's name, for a field of a struct with named fields.
    pub ident: Option<String>,
    /// The attributes written on the field.
    pub attributes: Vec<Attribute>,
    /// Where the field's type is, for errors about the field.
    pub ty_site: usize,
}

/// How the derive reads one field: its options and the name it looks up.
#[derive(Debug)]
pub struct FieldPlan {
    pub options: Options,
    pub name: String,
}

/// Whether the fields, of a tuple struct or variant when `tuple`, are a single
/// field without `knead` attributes, which the derive decodes by handing the
/// whole node to the field's type.
pub open spec fn delegating(fields: Seq<Field>, tuple: bool) -> bool {
    &&& tuple
    &&& fields.len() == 1
    &&& forall|k: int|
        0 <= k < fields[0].attributes@.len() ==> !knead_attribute(
            #[trigger] fields[0].attributes@[k],
        )
}

pub fn delegates(fields: &[Field], tuple: bool) -> (found: bool)
    ensures
        found == delegating(fields@, tuple),
{
    if !tuple || fields.len() != 1 {
        return false;
    }
    crate::derive::reject_attributes(fields[0].attributes.as_slice()).is_ok()
}

/// The namespace a field's name lives in: properties and children each have
/// their own, and only named lookups take part.
pub open spec fn namespace(options: Options) -> Option<Seq<char>> {
    match options.source {
        Source::Property => Some("property"@),
        Source::Child => Some("child"@),
        Source::Children => if options.name is Some {
            Some("child"@)
        } else {
            None
        },
        _ => None,
    }
}

/// The kind of catch-all a field is, if it is one: at most one field of a
/// kind may take everything that is left.
pub open spec fn catchall(options: Options) -> Option<Seq<char>> {
    match options.source {
        Source::Properties => Some("properties"@),
        Source::Arguments => Some("arguments"@),
        Source::NodeName => Some("node_name"@),
        Source::Children => if options.name is None {
            Some("children"@)
        } else {
            None
        },
        _ => None,
    }
}

/// The name the field at `index` looks up: the name its attributes give, or
/// its own name in kebab case, or `argument` and its position.
pub open spec fn field_name(field: Field, options: Options, index: int) -> Seq<char> {
    match options.name {
        Some(name) => name@,
        None => match field.ident {
            Some(ident) => kebab_case(ident@),
            None => "argument "@ + decimal_text(index as nat),
        },
    }
}

/// Whether the plans of a list of fields fit together: named lookups in one
/// namespace are all different, no two fields take the same kind of
/// everything left, and no single argument comes after the field that takes
/// all arguments.
pub open spec fn plans_fit(plans: Seq<FieldPlan>) -> bool {
    &&& forall|i: int, j: int|
        0 <= i < j < plans.len() && (#[trigger] namespace(plans[i].options)) is Some && namespace(
            plans[i].options,
        ) == (#[trigger] namespace(plans[j].options)) ==> plans[i].name@ != plans[j].name@
    &&& forall|i: int, j: int|
        0 <= i < j < plans.len() && (#[trigger] catchall(plans[i].options)) is Some ==> catchall(
            plans[i].options,
        ) != #[trigger] catchall(plans[j].options)
    &&& forall|i: int, j: int|
        0 <= i < j < plans.len() && (#[trigger] plans[i].options).source == Source::Arguments
            ==> (#[trigger] plans[j].options).source != Source::Argument
}

/// The text of a namespace or catch-all kind.
fn kind_text(property: bool) -> (text: &'static str)
    ensures
        text@ == if property {
            "property"@
        } else {
            "child"@
        },
{
    if property {
        "property"
    } else {
        "child"
    }
}

/// The namespace of `options`, as whether it is the property one.
fn namespace_of(options: &Options) -> (space: Option<bool>)
    ensures
        match space {
            Some(property) => namespace(*options) == Some(
                if property {
                    "property"@
                } else {
                    "child"@
                },
            ),
            None => namespace(*options) is None,
        },
{
    match options.source {
        Source::Property => Some(true),
        Source::Child => Some(false),
        Source::Children => if options.name.is_some() {
            Some(false)
        } else {
            None
        },
        _ => None,
    }
}

/// The catch-all kind of `options`, by number: properties, arguments, node
/// name, children.
fn catchall_of(options: &Options) -> (kind: Option<usize>)
    ensures
        match kind {
            Some(k) => k < 4 && catchall(*options) == Some(catchall_name(k as int)),
            None => catchall(*options) is None,
        },
{
    match options.source {
        Source::Properties => Some(0),
        Source::Arguments => Some(1),
        Source::NodeName => Some(2),
        Source::Children => if options.name.is_none() {
            Some(3)
        } else {
            None
        },
        _ => None,
    }
}

/// The name of catch-all kind `k`.
pub open spec fn catchall_name(k: int) -> Seq<char> {
    if k == 0 {
        "properties"@
    } else if k == 1 {
        "arguments"@
    } else if k == 2 {
        "node_name"@
    } else {
        "children"@
    }
}

/// The four catch-all kinds have different names.
proof fn lemma_catchall_names()
    ensures
        forall|a: int, b: int|
            0 <= a < 4 && 0 <= b < 4 && a != b ==> catchall_name(a) != catchall_name(b),
{
    reveal_strlit("properties");
    reveal_strlit("arguments");
    reveal_strlit("node_name");
    reveal_strlit("children");
    assert("properties"@.len() == 10);
    assert("arguments"@.len() == 9);
    assert("node_name"@.len() == 9);
    assert("children"@.len() == 8);
    assert("arguments"@[0] != "node_name"@[0]);
}

/// The text of catch-all kind `k`.
fn catchall_text(k: usize) -> (text: &'static str)
    requires
        k < 4,
    ensures
        text@ == catchall_name(k as int),
{
    if k == 0 {
        "properties"
    } else if k == 1 {
        "arguments"
    } else if k == 2 {
        "node_name"
    } else {
        "children"
    }
}

/// The name the field at `index` looks up.
fn name_of(field: &Field, options: &Options, index: usize) -> (name: String)
    ensures
        name@ == field_name(*field, *options, index as int),
{
    match &options.name {
        Some(name) => name.clone(),
        None => match &field.ident {
            Some(ident) => kebab(ident.as_str()),
            None => {
                let mut name = "argument ".to_owned();
                write_decimal(index, &mut name);
                name
            },
        },
    }
}

/// The namespace of a field with `settings`, as `namespace` gives it.
pub open spec fn setting_namespace(settings: Settings) -> Option<Seq<char>> {
    match settings.source {
        Some(Source::Property) => Some("property"@),
        Some(Source::Child) => Some("child"@),
        Some(Source::Children) => if settings.name is Some {
            Some("child"@)
        } else {
            None
        },
        _ => None,
    }
}

/// The catch-all kind of a field with `settings`, as `catchall` gives it.
pub open spec fn setting_catchall(settings: Settings) -> Option<Seq<char>> {
    match settings.source {
        Some(Source::Properties) => Some("properties"@),
        Some(Source::Arguments) => Some("arguments"@),
        Some(Source::NodeName) => Some("node_name"@),
        Some(Source::Children) => if settings.name is None {
            Some("children"@)
        } else {
            None
        },
        _ => None,
    }
}

/// The name the field at `index` with `settings` looks up, as `field_name`
/// gives it.
pub open spec fn setting_name(field: Field, settings: Settings, index: int) -> Seq<char> {
    match settings.name {
        Some(name) => name,
        None => match field.ident {
            Some(ident) => kebab_case(ident@),
            None => "argument "@ + decimal_text(index as nat),
        },
    }
}

/// What is wrong with adding a field with `settings`, looking up `name`,
/// after the fields `planned`: a name taken in its namespace, a second
/// catch-all of its kind, or a single argument after all arguments.
pub open spec fn conflict(
    planned: Seq<(Settings, Seq<char>)>,
    settings: Settings,
    name: Seq<char>,
    ty_site: usize,
) -> Option<Complaint> {
    if setting_namespace(settings) is Some && exists|i: int|
        0 <= i < planned.len() && setting_namespace((#[trigger] planned[i]).0) == setting_namespace(
            settings,
        ) && planned[i].1 == name {
        Some(
            Complaint {
                site: ty_site,
                message: "duplicate "@ + setting_namespace(settings)->0 + " name "@ + quoted(name),
            },
        )
    } else if setting_catchall(settings) is Some && exists|i: int|
        0 <= i < planned.len() && setting_catchall((#[trigger] planned[i]).0) == setting_catchall(
            settings,
        ) {
        Some(
            Complaint {
                site: ty_site,
                message: "multiple "@ + setting_catchall(settings)->0 + " fields"@,
            },
        )
    } else if settings.source == Some(Source::Argument) && exists|i: int|
        0 <= i < planned.len() && (#[trigger] planned[i]).0.source == Some(Source::Arguments) {
        Some(Complaint { site: ty_site, message: "argument fields must precede arguments"@ })
    } else {
        None
    }
}

/// The settings and names of the first `n` of `fields`, read in order, or the
/// first complaint about them.
pub open spec fn planning(fields: Seq<Field>, n: int) -> Result<Seq<(Settings, Seq<char>)>, Complaint>
    decreases n,
{
    if n <= 0 {
        Ok(Seq::empty())
    } else {
        match planning(fields, n - 1) {
            Ok(planned) => match field_outcome(fields[n - 1].attributes@, fields[n - 1].ty_site) {
                Ok(settings) => {
                    let name = setting_name(fields[n - 1], settings, n - 1);
                    match conflict(planned, settings, name, fields[n - 1].ty_site) {
                        Some(complaint) => Err(complaint),
                        None => Ok(planned.push((settings, name))),
                    }
                },
                Err(complaint) => Err(complaint),
            },
            Err(complaint) => Err(complaint),
        }
    }
}

/// Once planning has failed, planning more fields gives the same complaint.
proof fn lemma_planning_stays(fields: Seq<Field>, n: int, m: int)
    requires
        0 <= n <= m,
        planning(fields, n) is Err,
    ensures
        planning(fields, m) == planning(fields, n),
    decreases m - n,
{
    if n < m {
        lemma_planning_stays(fields, n, m - 1);
    }
}

/// The settings and names of `plans`.
pub open spec fn planned_of(plans: Seq<FieldPlan>) -> Seq<(Settings, Seq<char>)> {
    Seq::new(plans.len(), |i: int| (options_settings(plans[i].options), plans[i].name@))
}

/// The namespace, catch-all kind and name of a field read with `options` are
/// those of its settings.
proof fn lemma_setting_views(field: Field, options: Options, index: int)
    ensures
        setting_namespace(options_settings(options)) == namespace(options),
        setting_catchall(options_settings(options)) == catchall(options),
        options_settings(options).source == Some(options.source),
        setting_name(field, options_settings(options), index) == field_name(field, options, index),
{
}

/// Whether no field of `plans` shares the namespace and the name of a field
/// read with `options` that looks up `name`.
pub open spec fn name_free(plans: Seq<FieldPlan>, options: Options, name: Seq<char>) -> bool {
    namespace(options) is Some ==> forall|i: int|
        0 <= i < plans.len() ==> namespace((#[trigger] plans[i]).options) != namespace(options)
            || plans[i].name@ != name
}

/// A field whose name is taken in its namespace draws the duplicate name
/// complaint.
proof fn lemma_duplicate(plans: Seq<FieldPlan>, options: Options, name: Seq<char>, ty_site: usize, other: int)
    requires
        namespace(options) is Some,
        0 <= other < plans.len(),
        namespace(plans[other].options) == namespace(options),
        plans[other].name@ == name,
    ensures
        conflict(planned_of(plans), options_settings(options), name, ty_site) == Some(
            Complaint {
                site: ty_site,
                message: "duplicate "@ + namespace(options)->0 + " name "@ + quoted(name),
            },
        ),
{
    let planned = planned_of(plans);
    assert(planned[other] == (options_settings(plans[other].options), plans[other].name@));
    assert(setting_namespace(planned[other].0) == namespace(plans[other].options));
}

/// A field with a free name but a catch-all kind already taken draws the
/// multiple fields complaint.
proof fn lemma_multiple(plans: Seq<FieldPlan>, options: Options, name: Seq<char>, ty_site: usize, other: int)
    requires
        name_free(plans, options, name),
        catchall(options) is Some,
        0 <= other < plans.len(),
        catchall(plans[other].options) == catchall(options),
    ensures
        conflict(planned_of(plans), options_settings(options), name, ty_site) == Some(
            Complaint {
                site: ty_site,
                message: "multiple "@ + catchall(options)->0 + " fields"@,
            },
        ),
{
    let planned = planned_of(plans);
    assert(planned[other] == (options_settings(plans[other].options), plans[other].name@));
    assert(setting_catchall(planned[other].0) == catchall(plans[other].options));
    assert forall|i: int| 0 <= i < planned.len() implies !(setting_namespace(
        (#[trigger] planned[i]).0,
    ) == setting_namespace(options_settings(options)) && planned[i].1 == name
        && setting_namespace(options_settings(options)) is Some) by {
        assert(planned[i] == (options_settings(plans[i].options), plans[i].name@));
        assert(setting_namespace(planned[i].0) == namespace(plans[i].options));
    }
}

/// A single argument after the field that takes all arguments, with a free
/// name, draws the argument order complaint.
proof fn lemma_argument_late(plans: Seq<FieldPlan>, options: Options, name: Seq<char>, ty_site: usize, other: int)
    requires
        name_free(plans, options, name),
        options.source == Source::Argument,
        0 <= other < plans.len(),
        catchall(plans[other].options) == Some(catchall_name(1)),
    ensures
        conflict(planned_of(plans), options_settings(options), name, ty_site) == Some(
            Complaint { site: ty_site, message: "argument fields must precede arguments"@ },
        ),
{
    lemma_catchall_names();
    reveal_strlit("properties");
    reveal_strlit("arguments");
    reveal_strlit("node_name");
    reveal_strlit("children");
    assert(catchall_name(1) != catchall_name(0) && catchall_name(1) != catchall_name(2)
        && catchall_name(1) != catchall_name(3));
    assert(plans[other].options.source == Source::Arguments);
    let planned = planned_of(plans);
    assert(planned[other] == (options_settings(plans[other].options), plans[other].name@));
}

/// A field with a free name, a catch-all kind not yet taken, and no single
/// argument after all arguments draws no complaint.
proof fn lemma_no_conflict(plans: Seq<FieldPlan>, options: Options, name: Seq<char>, ty_site: usize)
    requires
        name_free(plans, options, name),
        catchall(options) is Some ==> forall|i: int|
            0 <= i < plans.len() ==> catchall((#[trigger] plans[i]).options) != catchall(options),
        options.source == Source::Argument ==> forall|i: int|
            0 <= i < plans.len() ==> (#[trigger] plans[i]).options.source != Source::Arguments,
    ensures
        conflict(planned_of(plans), options_settings(options), name, ty_site) is None,
{
    let planned = planned_of(plans);
    assert forall|i: int| 0 <= i < planned.len() implies #[trigger] planned[i] == (
        options_settings(plans[i].options),
        plans[i].name@,
    ) && setting_namespace(planned[i].0) == namespace(plans[i].options) && setting_catchall(
        planned[i].0,
    ) == catchall(plans[i].options) && planned[i].0.source == Some(plans[i].options.source) by {}
}

/// Reads the options of every field and checks that the fields fit together,
/// giving how each field is read.
#[verifier::rlimit(40)]
pub fn plan_fields(fields: &[Field]) -> (result: Result<Vec<FieldPlan>, DeriveError>)
    ensures
        match planning(fields@, fields@.len() as int) {
            Ok(planned) => result matches Ok(plans) && planned_of(plans@) == planned,
            Err(complaint) => result matches Err(error) && error_is(
                error,
                complaint.site,
                complaint.message,
            ),
        },
        result matches Ok(plans) ==> {
            &&& plans@.len() == fields@.len()
            &&& plans_fit(plans@)
            &&& forall|i: int|
                0 <= i < plans@.len() ==> options_fit(
                    (#[trigger] plans@[i]).options.source,
                    plans@[i].options.name is Some,
                    plans@[i].options.default is Some,
                    plans@[i].options.unwrap,
                    plans@[i].options.str_value,
                ) && plans@[i].name@ == field_name(fields@[i], plans@[i].options, i)
        },
{
    proof {
        reveal_strlit("property");
        reveal_strlit("child");
        reveal_strlit("properties");
        reveal_strlit("arguments");
        reveal_strlit("node_name");
        reveal_strlit("children");
    }
    let mut plans: Vec<FieldPlan> = Vec::new();
    let mut seen_catchalls = [false, false, false, false];
    let mut index: usize = 0;
    proof {
        assert(planned_of(plans@) =~= Seq::<(Settings, Seq<char>)>::empty());
    }
    while index < fields.len()
        invariant
            index <= fields@.len(),
            plans@.len() == index,
            plans_fit(plans@),
            forall|i: int|
                0 <= i < plans@.len() ==> options_fit(
                    (#[trigger] plans@[i]).options.source,
                    plans@[i].options.name is Some,
                    plans@[i].options.default is Some,
                    plans@[i].options.unwrap,
                    plans@[i].options.str_value,
                ) && plans@[i].name@ == field_name(fields@[i], plans@[i].options, i),
            forall|k: int|
                0 <= k < 4 ==> (seen_catchalls@[k] <==> exists|i: int|
                    0 <= i < plans@.len() && catchall((#[trigger] plans@[i]).options) == Some(
                        catchall_name(k),
                    )),
            planning(fields@, index as int) == Ok::<Seq<(Settings, Seq<char>)>, Complaint>(
                planned_of(plans@),
            ),
        decreases fields@.len() - index,
    {
        proof {
            reveal_strlit("property");
            reveal_strlit("child");
            reveal_strlit("properties");
            reveal_strlit("arguments");
            reveal_strlit("node_name");
            reveal_strlit("children");
        }
        let ghost seen_before = seen_catchalls@;
        let field = &fields[index];
        proof {
            assert(fields@[index as int] == *field);
        }
        let options = match field_options(field.attributes.as_slice(), field.ty_site) {
            Ok(options) => options,
            Err(error) => {
                proof {
                    lemma_planning_stays(fields@, index + 1, fields@.len() as int);
                }
                return Err(error);
            },
        };
        let name = name_of(field, &options, index);
        proof {
            lemma_setting_views(*field, options, index as int);
        }
        let space = namespace_of(&options);
        let mut duplicate = false;
        if let Some(property) = space {
            let mut other: usize = 0;
            while other < plans.len() && !duplicate
                invariant
                    other <= plans@.len(),
                    namespace(options) == Some(
                        if property {
                            "property"@
                        } else {
                            "child"@
                        },
                    ),
                    !duplicate ==> forall|i: int|
                        0 <= i < other ==> namespace((#[trigger] plans@[i]).options) != namespace(
                            options,
                        ) || plans@[i].name@ != name@,
                    duplicate ==> 0 < other && namespace(plans@[other - 1].options) == namespace(
                        options,
                    ) && plans@[other - 1].name@ == name@,
                decreases plans@.len() - other,
            {
                proof {
                    reveal_strlit("property");
                    reveal_strlit("child");
                    assert("property"@.len() != "child"@.len());
                }
                let same_space = match namespace_of(&plans[other].options) {
                    Some(earlier) => earlier == property,
                    None => false,
                };
                other = other + 1;
                if same_space && same_text(plans[other - 1].name.as_str(), name.as_str()) {
                    duplicate = true;
                }
            }
            if duplicate {
                let mut message = "duplicate ".to_owned();
                message.append(kind_text(property));
                message.append(" name ");
                message.append(crate::text::debug_quoted(name.as_str()).as_str());
                proof {
                    lemma_duplicate(plans@, options, name@, field.ty_site, other - 1);
                    lemma_planning_stays(fields@, index + 1, fields@.len() as int);
                }
                return Err(DeriveError { site: Some(field.ty_site), message });
            }
        }
        proof {
            assert(name_free(plans@, options, name@));
        }
        let taken = catchall_of(&options);
        if let Some(kind) = taken {
            if seen_catchalls[kind] {
                let mut message = "multiple ".to_owned();
                message.append(catchall_text(kind));
                message.append(" fields");
                proof {
                    let i = choose|i: int|
                        0 <= i < plans@.len() && catchall((#[trigger] plans@[i]).options) == Some(
                            catchall_name(kind as int),
                        );
                    lemma_multiple(plans@, options, name@, field.ty_site, i);
                    lemma_planning_stays(fields@, index + 1, fields@.len() as int);
                }
                return Err(DeriveError { site: Some(field.ty_site), message });
            }
            seen_catchalls.set(kind, true);
        }
        proof {
            lemma_catchall_names();
            assert forall|k: int| 0 <= k < 4 implies seen_catchalls@[k] == (seen_before[k] || (
            catchall(options) == Some(catchall_name(k)))) by {
                if let Some(kind) = taken {
                    if k != kind {
                        assert(catchall_name(k) != catchall_name(kind as int));
                    }
                }
            }
        }
        if options.source == Source::Argument && seen_catchalls[1] {
            proof {
                let i = choose|i: int|
                    0 <= i < plans@.len() && catchall((#[trigger] plans@[i]).options) == Some(
                        catchall_name(1),
                    );
                lemma_argument_late(plans@, options, name@, field.ty_site, i);
                lemma_planning_stays(fields@, index + 1, fields@.len() as int);
            }
            return Err(DeriveError::at(field.ty_site, "argument fields must precede arguments"));
        }
        let ghost before = plans@;
        proof {
            assert forall|i: int| 0 <= i < before.len() && catchall(options) is Some implies catchall(
                (#[trigger] before[i]).options,
            ) != catchall(options) by {
                if catchall(before[i].options) == catchall(options) {
                    let kind = choose|k: int| 0 <= k < 4 && catchall(options) == Some(catchall_name(k));
                    assert(!seen_before[kind]);
                }
            }
            assert forall|i: int| 0 <= i < before.len() && options.source == Source::Argument implies (
            #[trigger] before[i]).options.source != Source::Arguments by {
                if before[i].options.source == Source::Arguments {
                    assert(catchall(before[i].options) == Some(catchall_name(1)));
                }
            }
            lemma_no_conflict(before, options, name@, field.ty_site);
        }
        plans.push(FieldPlan { options, name });
        proof {
            assert(planned_of(plans@) =~= planned_of(before).push(
                (options_settings(plans@[index as int].options), plans@[index as int].name@),
            ));
            let plan = plans@[index as int];
            assert forall|k: int| 0 <= k < 4 implies (seen_catchalls@[k] <==> exists|i: int|
                0 <= i < plans@.len() && catchall((#[trigger] plans@[i]).options) == Some(
                    catchall_name(k),
                )) by {
                if catchall(plan.options) == Some(catchall_name(k)) {
                    assert(catchall(plans@[index as int].options) == Some(catchall_name(k)));
                }
                if exists|i: int|
                    0 <= i < before.len() && catchall((#[trigger] before[i]).options) == Some(
                        catchall_name(k),
                    ) {
                    let i = choose|i: int|
                        0 <= i < before.len() && catchall((#[trigger] before[i]).options) == Some(
                            catchall_name(k),
                        );
                    assert(plans@[i] == before[i]);
                }
            }
            assert forall|i: int, j: int|
                0 <= i < j < plans@.len() && (#[trigger] plans@[i].options).source
                    == Source::Arguments implies (#[trigger] plans@[j].options).source
                != Source::Argument by {
                if j == index {
                    assert(catchall(plans@[i].options) == Some(catchall_name(1)));
                    assert(seen_catchalls@[1]);
                }
            }
        }
        index = index + 1;
    }
    Ok(plans)
}


/// The phase a field is read in: the catch-alls of properties and of children
/// last, flattened fields before them, everything else first.
pub open spec fn priority(options: Options) -> int {
    match options.source {
        Source::Properties => 2,
        Source::Children => if options.name is None {
            2
        } else {
            0
        },
        Source::Flatten => 1,
        _ => 0,
    }
}

/// The fields of `plans` read in phase `phase`.
pub open spec fn in_phase(plans: Seq<FieldPlan>, phase: int) -> spec_fn(int) -> bool {
    |i: int| priority(plans[i].options) == phase
}

/// The phase a field is read in.
fn phase_of(options: &Options) -> (phase: usize)
    ensures
        phase == priority(*options),
{
    match options.source {
        Source::Properties => 2,
        Source::Children => if options.name.is_none() {
            2
        } else {
            0
        },
        Source::Flatten => 1,
        _ => 0,
    }
}

/// The order the fields are read in: phase by phase, and in each phase in the
/// order they are declared.
pub fn read_order(plans: &[FieldPlan]) -> (order: Vec<usize>)
    ensures
        order@.len() == crate::decode::indices_where(plans@.len() as int, in_phase(plans@, 0)).len()
            + crate::decode::indices_where(plans@.len() as int, in_phase(plans@, 1)).len()
            + crate::decode::indices_where(plans@.len() as int, in_phase(plans@, 2)).len(),
        forall|k: int|
            0 <= k < order@.len() ==> #[trigger] order@[k] as int == (
            crate::decode::indices_where(plans@.len() as int, in_phase(plans@, 0))
                + crate::decode::indices_where(plans@.len() as int, in_phase(plans@, 1))
                + crate::decode::indices_where(plans@.len() as int, in_phase(plans@, 2)))[k],
        order@.len() == read_sequence(plans@).len(),
        forall|k: int| 0 <= k < order@.len() ==> #[trigger] order@[k] as int == read_sequence(plans@)[k],
{
    let mut order: Vec<usize> = Vec::new();
    let ghost mut done: Seq<int> = Seq::empty();
    let mut phase: usize = 0;
    while phase < 3
        invariant
            phase <= 3,
            order@.len() == done.len(),
            forall|k: int| 0 <= k < order@.len() ==> #[trigger] order@[k] as int == done[k],
            done == if phase == 0 {
                Seq::<int>::empty()
            } else if phase == 1 {
                crate::decode::indices_where(plans@.len() as int, in_phase(plans@, 0))
            } else if phase == 2 {
                crate::decode::indices_where(plans@.len() as int, in_phase(plans@, 0))
                    + crate::decode::indices_where(plans@.len() as int, in_phase(plans@, 1))
            } else {
                crate::decode::indices_where(plans@.len() as int, in_phase(plans@, 0))
                    + crate::decode::indices_where(plans@.len() as int, in_phase(plans@, 1))
                    + crate::decode::indices_where(plans@.len() as int, in_phase(plans@, 2))
            },
        decreases 3 - phase,
    {
        let ghost start = done;
        let mut index: usize = 0;
        while index < plans.len()
            invariant
                phase < 3,
                index <= plans@.len(),
                order@.len() == done.len(),
                forall|k: int| 0 <= k < order@.len() ==> #[trigger] order@[k] as int == done[k],
                done == start + crate::decode::indices_where(
                    index as int,
                    in_phase(plans@, phase as int),
                ),
            decreases plans@.len() - index,
        {
            proof {
                crate::decode::lemma_indices_step(index as int, in_phase(plans@, phase as int));
            }
            if phase_of(&plans[index].options) == phase {
                order.push(index);
                proof {
                    done = done.push(index as int);
                }
            }
            proof {
                assert(done =~= start + crate::decode::indices_where(
                    index + 1,
                    in_phase(plans@, phase as int),
                ));
            }
            index = index + 1;
        }
        phase = phase + 1;
    }
    order
}

/// The order `read_order` gives: phase by phase, each in declaration order.
pub open spec fn read_sequence(plans: Seq<FieldPlan>) -> Seq<int> {
    crate::decode::indices_where(plans.len() as int, in_phase(plans, 0))
        + crate::decode::indices_where(plans.len() as int, in_phase(plans, 1))
        + crate::decode::indices_where(plans.len() as int, in_phase(plans, 2))
}

/// Whether a field is read from a single entry or from named entries: an
/// argument, the arguments, a property, a child, the node's name, or the
/// children of one name.
pub open spec fn reads_before_catchalls(options: Options) -> bool {
    match options.source {
        Source::Argument | Source::Arguments | Source::Property | Source::Child | Source::NodeName => true,
        Source::Children => options.name is Some,
        _ => false,
    }
}

/// A children field without a name is a catch-all: it is read after every
/// argument, property, child and named children field, and after every
/// flattened field, wherever the fields are declared. Both fields are read,
/// each exactly once.
pub proof fn law_catchall_children_read_last(plans: Seq<FieldPlan>, catchall: int, other: int)
    requires
        0 <= catchall < plans.len(),
        0 <= other < plans.len(),
        plans[catchall].options.source == Source::Children,
        plans[catchall].options.name is None,
        reads_before_catchalls(plans[other].options) || plans[other].options.source
            == Source::Flatten,
    ensures
        exists|k: int| 0 <= k < read_sequence(plans).len() && read_sequence(plans)[k] == catchall,
        exists|l: int| 0 <= l < read_sequence(plans).len() && read_sequence(plans)[l] == other,
        forall|k: int, l: int|
            0 <= k < read_sequence(plans).len() && 0 <= l < read_sequence(plans).len()
                && read_sequence(plans)[k] == catchall && read_sequence(plans)[l] == other ==> l
                < k,
{
    let n = plans.len() as int;
    let first = crate::decode::indices_where(n, in_phase(plans, 0));
    let second = crate::decode::indices_where(n, in_phase(plans, 1));
    let third = crate::decode::indices_where(n, in_phase(plans, 2));
    crate::decode::lemma_indices_where(n, in_phase(plans, 0));
    crate::decode::lemma_indices_where(n, in_phase(plans, 1));
    crate::decode::lemma_indices_where(n, in_phase(plans, 2));
    let order = read_sequence(plans);
    assert(order == first + second + third);
    assert(in_phase(plans, 2)(catchall));
    let c = choose|c: int| 0 <= c < third.len() && #[trigger] third[c] == catchall;
    assert(order[first.len() + second.len() + c] == catchall);
    let phase = priority(plans[other].options);
    if phase == 0 {
        assert(in_phase(plans, 0)(other));
        let o = choose|o: int| 0 <= o < first.len() && #[trigger] first[o] == other;
        assert(order[o] == other);
    } else {
        assert(in_phase(plans, 1)(other));
        let o = choose|o: int| 0 <= o < second.len() && #[trigger] second[o] == other;
        assert(order[first.len() + o] == other);
    }
    assert forall|k: int, l: int|
        0 <= k < order.len() && 0 <= l < order.len() && order[k] == catchall && order[l]
            == other implies l < k by {
        if k < first.len() {
            assert(order[k] == first[k]);
            assert(in_phase(plans, 0)(first[k]));
        } else if k < first.len() + second.len() {
            assert(order[k] == second[k - first.len()]);
            assert(in_phase(plans, 1)(second[k - first.len()]));
        }
        if l >= first.len() + second.len() {
            assert(order[l] == third[l - first.len() - second.len()]);
            assert(in_phase(plans, 2)(third[l - first.len() - second.len()]));
        } else if phase == 1 && l < first.len() {
            assert(order[l] == first[l]);
            assert(in_phase(plans, 0)(first[l]));
        }
    }
}

/// A variant of an enum as the derive sees it.
#[derive(Debug)]
pub struct Variant {
    /// The variant's Rust name.
    pub name: String,
    /// The attributes written on the variant.
    pub attributes: Vec<Attribute>,
    /// Whether the variant has no fields.
    pub unit: bool,
    /// Where the variant is, for errors about it.
    pub site: usize,
}

/// Checks one more variant of an enum that the derive decodes by name, and
/// adds its kebab case name to `names`: it may carry no `knead` attribute,
/// must not repeat a name, and for `DecodeScalar` must be a unit variant.
pub fn add_variant(variant: &Variant, scalar: bool, names: &mut Vec<String>) -> (result: Result<
    (),
    DeriveError,
>)
    ensures
        result is Ok <==> (forall|k: int|
            0 <= k < variant.attributes@.len() ==> !knead_attribute(
                #[trigger] variant.attributes@[k],
            )) && (scalar ==> variant.unit) && !texts(old(names)@).contains(
            kebab_case(variant.name@),
        ),
        result is Ok ==> texts(final(names)@) == texts(old(names)@).push(kebab_case(variant.name@)),
        result is Err ==> final(names)@ == old(names)@,
{
    reject_attributes(variant.attributes.as_slice())?;
    if scalar && !variant.unit {
        return Err(DeriveError::at(variant.site, "DecodeScalar requires unit variants"));
    }
    let name = kebab(variant.name.as_str());
    if contains_text(names.as_slice(), name.as_str()) {
        return Err(DeriveError::at(variant.site, "duplicate decoded variant name"));
    }
    names.push(name);
    proof {
        assert(texts(names@) =~= texts(old(names)@).push(kebab_case(variant.name@)));
    }
    Ok(())
}

/// Whether `a` comes before `b` in the order of their characters' scalar
/// values, a prefix before what extends it.
pub open spec fn text_less(a: Seq<char>, b: Seq<char>) -> bool
    decreases a.len(),
{
    if b.len() == 0 {
        false
    } else if a.len() == 0 {
        true
    } else if a[0] != b[0] {
        (a[0] as u32) < (b[0] as u32)
    } else {
        text_less(a.drop_first(), b.drop_first())
    }
}

/// A text never comes both before and after another.
proof fn lemma_less_asymmetric(a: Seq<char>, b: Seq<char>)
    ensures
        !(text_less(a, b) && text_less(b, a)),
    decreases a.len(),
{
    if a.len() > 0 && b.len() > 0 && a[0] == b[0] {
        lemma_less_asymmetric(a.drop_first(), b.drop_first());
    }
}

/// Of two different texts, one comes before the other.
proof fn lemma_less_total(a: Seq<char>, b: Seq<char>)
    ensures
        a != b ==> text_less(a, b) || text_less(b, a),
    decreases a.len(),
{
    if a.len() > 0 && b.len() > 0 {
        if a[0] == b[0] {
            lemma_less_total(a.drop_first(), b.drop_first());
            if a.drop_first() == b.drop_first() {
                assert(a =~= seq![a[0]] + a.drop_first());
                assert(b =~= seq![b[0]] + b.drop_first());
            }
        } else {
            vstd::utf8::char_u32_cast(a[0], a[0] as u32);
            vstd::utf8::char_u32_cast(b[0], b[0] as u32);
        }
    } else if a.len() == 0 && b.len() == 0 {
        assert(a =~= b);
    }
}

/// The order of texts is transitive.
proof fn lemma_less_transitive(a: Seq<char>, b: Seq<char>, c: Seq<char>)
    requires
        text_less(a, b),
        text_less(b, c),
    ensures
        text_less(a, c),
    decreases a.len(),
{
    if a.len() > 0 && a[0] == b[0] && b[0] == c[0] {
        lemma_less_transitive(a.drop_first(), b.drop_first(), c.drop_first());
    }
}

/// Whether `a` comes before `b`.
fn text_before(a: &str, b: &str) -> (before: bool)
    ensures
        before == text_less(a@, b@),
{
    let a_len = a.unicode_len();
    let b_len = b.unicode_len();
    let mut index: usize = 0;
    proof {
        assert(a@.skip(0) =~= a@);
        assert(b@.skip(0) =~= b@);
    }
    while index < a_len && index < b_len
        invariant
            a_len == a@.len(),
            b_len == b@.len(),
            index <= a_len,
            index <= b_len,
            text_less(a@, b@) == text_less(a@.skip(index as int), b@.skip(index as int)),
        decreases a_len - index,
    {
        let x = a.get_char(index);
        let y = b.get_char(index);
        proof {
            assert(a@.skip(index as int).drop_first() =~= a@.skip(index + 1));
            assert(b@.skip(index as int).drop_first() =~= b@.skip(index + 1));
        }
        if x != y {
            return (x as u32) < (y as u32);
        }
        index = index + 1;
    }
    index < b_len
}

/// Whether `texts` are in strictly increasing order.
pub open spec fn increasing(texts: Seq<Seq<char>>) -> bool {
    forall|i: int, j: int| 0 <= i < j < texts.len() ==> text_less(#[trigger] texts[i], #[trigger] texts[j])
}

/// `parts` written one after another with `separator` between them.
pub open spec fn joined(parts: Seq<Seq<char>>, separator: Seq<char>) -> Seq<char>
    decreases parts.len(),
{
    if parts.len() == 0 {
        Seq::empty()
    } else if parts.len() == 1 {
        parts[0]
    } else {
        joined(parts.drop_last(), separator) + separator + parts.last()
    }
}

/// The names of `names` in increasing order, when they are all different.
fn sorted_names(names: &[String]) -> (sorted: Vec<String>)
    requires
        forall|i: int, j: int| 0 <= i < j < names@.len() ==> names@[i]@ != names@[j]@,
    ensures
        texts(sorted@).to_multiset() == texts(names@).to_multiset(),
        increasing(texts(sorted@)),
{
    let mut sorted: Vec<String> = Vec::new();
    let mut index: usize = 0;
    proof {
        assert(texts(sorted@) =~= Seq::<Seq<char>>::empty());
        assert(texts(names@.take(0)) =~= Seq::<Seq<char>>::empty());
    }
    while index < names.len()
        invariant
            index <= names@.len(),
            forall|i: int, j: int| 0 <= i < j < names@.len() ==> names@[i]@ != names@[j]@,
            texts(sorted@).to_multiset() == texts(names@.take(index as int)).to_multiset(),
            increasing(texts(sorted@)),
            forall|k: int| 0 <= k < sorted@.len() ==> texts(names@.take(index as int)).contains(
                #[trigger] sorted@[k]@,
            ),
        decreases names@.len() - index,
    {
        let name = names[index].clone();
        let mut position: usize = 0;
        while position < sorted.len() && text_before(sorted[position].as_str(), name.as_str())
            invariant
                position <= sorted@.len(),
                forall|k: int| 0 <= k < position ==> text_less(#[trigger] sorted@[k]@, name@),
            decreases sorted@.len() - position,
        {
            position = position + 1;
        }
        let ghost before = texts(sorted@);
        proof {
            assert forall|k: int| 0 <= k < sorted@.len() implies (#[trigger] sorted@[k])@ != name@ by {
                let m = choose|m: int| 0 <= m < index && texts(names@.take(index as int))[m] == sorted@[k]@;
                assert(names@[m]@ == sorted@[k]@);
            }
            assert forall|k: int| position <= k < sorted@.len() implies text_less(name@, #[trigger] sorted@[k]@) by {
                lemma_less_total(sorted@[position as int]@, name@);
                if k > position {
                    assert(text_less(texts(sorted@)[position as int], texts(sorted@)[k]));
                    lemma_less_transitive(name@, sorted@[position as int]@, sorted@[k]@);
                }
            }
        }
        sorted.insert(position, name);
        proof {
            let after = texts(sorted@);
            assert(after =~= before.insert(position as int, names@[index as int]@));
            assert(texts(names@.take(index + 1)) =~= texts(names@.take(index as int)).push(names@[index as int]@));
            vstd::seq_lib::to_multiset_insert(before, position as int, names@[index as int]@);
            vstd::seq_lib::to_multiset_build(texts(names@.take(index as int)), names@[index as int]@);
            assert forall|i: int, j: int| 0 <= i < j < after.len() implies text_less(#[trigger] after[i], #[trigger] after[j]) by {
                if i < position && j > position {
                    lemma_less_transitive(after[i], after[position as int], after[j]);
                }
            }
            assert forall|k: int| 0 <= k < sorted@.len() implies texts(names@.take(index + 1)).contains(#[trigger] sorted@[k]@) by {
                if k < position {
                    assert(after[k] == before[k]);
                    let m = choose|m: int| 0 <= m < index && texts(names@.take(index as int))[m] == before[k];
                    assert(texts(names@.take(index + 1))[m] == before[k]);
                } else if k == position {
                    assert(texts(names@.take(index + 1))[index as int] == sorted@[k]@);
                } else {
                    assert(after[k] == before[k - 1]);
                    let m = choose|m: int| 0 <= m < index && texts(names@.take(index as int))[m] == before[k - 1];
                    assert(texts(names@.take(index + 1))[m] == before[k - 1]);
                }
            }
        }
        index = index + 1;
    }
    proof {
        assert(names@.take(names@.len() as int) =~= names@);
    }
    sorted
}

/// The message for a node whose name is none of `names`: `expected one of`
/// and the names in increasing order, separated by commas.
#[verifier::rlimit(30)]
pub fn expected_message(names: &[String]) -> (message: String)
    requires
        forall|i: int, j: int| 0 <= i < j < names@.len() ==> names@[i]@ != names@[j]@,
    ensures
        exists|sorted: Seq<Seq<char>>|
            sorted.to_multiset() == texts(names@).to_multiset() && increasing(sorted) && message@
                == "expected one of "@ + joined(sorted, ", "@),
{
    let sorted = sorted_names(names);
    let ghost parts = texts(sorted@);
    let mut message = "expected one of ".to_owned();
    let ghost head = message@;
    let mut index: usize = 0;
    proof {
        assert(parts.take(0) =~= Seq::<Seq<char>>::empty());
        assert(head + Seq::<char>::empty() =~= head);
    }
    while index < sorted.len()
        invariant
            index <= sorted@.len(),
            parts == texts(sorted@),
            message@ == head + joined(parts.take(index as int), ", "@),
        decreases sorted@.len() - index,
    {
        let ghost before = message@;
        if index > 0 {
            message.append(", ");
        }
        message.append(sorted[index].as_str());
        proof {
            let next = parts.take(index + 1);
            assert(next.drop_last() =~= parts.take(index as int));
            assert(next.last() == sorted@[index as int]@);
            if index == 0 {
                assert(joined(next, ", "@) == next[0]);
                assert(message@ =~= head + joined(next, ", "@));
            } else {
                assert(message@ =~= head + joined(next, ", "@));
            }
        }
        index = index + 1;
    }
    proof {
        assert(parts.take(sorted@.len() as int) =~= parts);
    }
    message
}

/// The message for a field that is absent and has no default: what kind of
/// entry is missing and its name.
pub open spec fn missing_text(source: Source, name: Seq<char>) -> Seq<char> {
    (match source {
        Source::Argument => "argument"@,
        Source::Property => "property"@,
        _ => "child node"@,
    }) + " "@ + quoted(name) + " is required"@
}

pub fn missing_message(source: Source, name: &str) -> (message: String)
    ensures
        message@ == missing_text(source, name@),
{
    let mut message = match source {
        Source::Argument => "argument".to_owned(),
        Source::Property => "property".to_owned(),
        _ => "child node".to_owned(),
    };
    message.append(" ");
    message.append(crate::text::debug_quoted(name).as_str());
    message.append(" is required");
    message
}

/// Where the generated code looks up the value of a field.
#[derive(Clone, Copy, Debug, PartialEq, Eq, Structural)]
pub enum Lookup {
    /// The next argument.
    Argument,
    /// The property of the field's name.
    Property,
    /// The arguments that are left.
    Arguments,
    /// The properties that are left.
    Properties,
    /// The one child of the field's name.
    Child,
    /// The children, only those of the field's name when `filtered`.
    Children { filtered: bool },
    /// The whole node, handed to the field's type.
    Flatten,
    /// The node's name.
    NodeName,
}

/// How the generated code turns what it looked up into the value.
#[derive(Clone, Copy, Debug, PartialEq, Eq, Structural)]
pub enum Reading {
    /// A scalar value, through `FromStr` when `from_str`, else through
    /// `DecodeScalar`.
    Scalar { from_str: bool },
    /// A child node, decoded whole through `Decode`.
    Node,
    /// The single argument of a child node, read as a scalar.
    UnwrapArgument { from_str: bool },
    /// The arguments of a child node, each read as a scalar.
    UnwrapArguments { from_str: bool },
    /// The properties of a child node, each value read through `DecodeScalar`.
    UnwrapProperties,
    /// The field's type decodes the node itself.
    Delegate,
    /// The node's name, read through `FromStr`.
    ParseName,
}

/// What stands in for a value that the node does not have.
#[derive(Debug)]
pub enum Absent {
    /// The `default = ...` expression, given by the sites of its trees.
    Expression(Vec<usize>),
    /// The type's `Default` value.
    Default,
    /// `None`, for an `Option` field.
    Nothing,
    /// A missing-entry error with this message.
    Missing(String),
    /// An empty collection.
    Empty,
    /// Nothing can be absent.
    Never,
}

/// `Absent` as a value.
pub enum Fallback {
    Expression(Seq<usize>),
    Default,
    Nothing,
    Missing(Seq<char>),
    Empty,
    Never,
}

/// The code that reads one field: where it looks, whether it decodes the
/// type inside the field's `Option` and wraps the result in `Some`, how it
/// reads what it found, and what stands in when nothing is found.
#[derive(Debug)]
pub struct ValuePlan {
    pub lookup: Lookup,
    pub inner: bool,
    pub reading: Reading,
    pub absent: Absent,
}

/// `ValuePlan` as a value.
pub struct PlanModel {
    pub lookup: Lookup,
    pub inner: bool,
    pub reading: Reading,
    pub absent: Fallback,
}

/// The fallback that `absent` stands for.
pub open spec fn fallback_of(absent: Absent) -> Fallback {
    match absent {
        Absent::Expression(sites) => Fallback::Expression(sites@),
        Absent::Default => Fallback::Default,
        Absent::Nothing => Fallback::Nothing,
        Absent::Missing(message) => Fallback::Missing(message@),
        Absent::Empty => Fallback::Empty,
        Absent::Never => Fallback::Never,
    }
}

impl View for ValuePlan {
    type V = PlanModel;

    open spec fn view(&self) -> PlanModel {
        PlanModel {
            lookup: self.lookup,
            inner: self.inner,
            reading: self.reading,
            absent: fallback_of(self.absent),
        }
    }
}

/// Where a field read from `source` is looked up; `named` when the field's
/// attributes give it a name.
pub open spec fn lookup_for(source: Source, named: bool) -> Lookup {
    match source {
        Source::Argument => Lookup::Argument,
        Source::Property => Lookup::Property,
        Source::Arguments => Lookup::Arguments,
        Source::Properties => Lookup::Properties,
        Source::Child => Lookup::Child,
        Source::Children => Lookup::Children { filtered: named },
        Source::Flatten => Lookup::Flatten,
        Source::NodeName => Lookup::NodeName,
    }
}

/// How a field read from `source` is read: a child through its `unwrap`
/// form, a scalar through `FromStr` when `str` is set.
pub open spec fn reading_for(source: Source, unwrap: Option<Unwrap>, from_str: bool) -> Reading {
    match source {
        Source::Child | Source::Children => match unwrap {
            None => Reading::Node,
            Some(Unwrap::Argument) => Reading::UnwrapArgument { from_str },
            Some(Unwrap::Arguments) => Reading::UnwrapArguments { from_str },
            Some(Unwrap::Properties) => Reading::UnwrapProperties,
        },
        Source::Flatten => Reading::Delegate,
        Source::NodeName => Reading::ParseName,
        _ => Reading::Scalar { from_str },
    }
}

/// What stands in for a field named `name` read from `source` when the node
/// lacks it: for a collection its `default` expression or an empty
/// collection; for a single value its `default` expression, the type's
/// default, `None` for an `Option` field, or else a missing-entry error.
pub open spec fn fallback_for(
    source: Source,
    default: Option<Option<Seq<usize>>>,
    name: Seq<char>,
    optional: bool,
) -> Fallback {
    match source {
        Source::Arguments | Source::Properties | Source::Children => match default {
            Some(Some(sites)) => Fallback::Expression(sites),
            _ => Fallback::Empty,
        },
        Source::Flatten | Source::NodeName => Fallback::Never,
        _ => match default {
            Some(Some(sites)) => Fallback::Expression(sites),
            Some(None) => Fallback::Default,
            None => if optional {
                Fallback::Nothing
            } else {
                Fallback::Missing(missing_text(source, name))
            },
        },
    }
}

/// The code that reads a field with `settings` and the name `name`, whose
/// type is an `Option` when `optional`: a `str` argument or property, and any
/// child, of an `Option` field is decoded as the type inside and wrapped in
/// `Some`.
pub open spec fn value_plan_spec(settings: Settings, name: Seq<char>, optional: bool) -> PlanModel {
    let source = settings.source.unwrap();
    PlanModel {
        lookup: lookup_for(source, settings.name is Some),
        inner: match source {
            Source::Argument | Source::Property => optional && settings.str_flag,
            Source::Child => optional,
            _ => false,
        },
        reading: reading_for(source, settings.unwrap, settings.str_flag),
        absent: fallback_for(source, settings.default, name, optional),
    }
}

/// A copy of `sites`.
fn copy_sites(sites: &Vec<usize>) -> (copy: Vec<usize>)
    ensures
        copy@ == sites@,
{
    let mut copy: Vec<usize> = Vec::new();
    let mut index: usize = 0;
    while index < sites.len()
        invariant
            index <= sites@.len(),
            copy@ == sites@.subrange(0, index as int),
        decreases sites@.len() - index,
    {
        copy.push(sites[index]);
        index = index + 1;
    }
    copy
}

/// The code that reads the field of `plan`, whose type is an `Option` when
/// `optional`.
pub fn value_plan(plan: &FieldPlan, optional: bool) -> (v: ValuePlan)
    ensures
        v@ == value_plan_spec(options_settings(plan.options), plan.name@, optional),
{
    let options = &plan.options;
    let source = options.source;
    let lookup = match source {
        Source::Argument => Lookup::Argument,
        Source::Property => Lookup::Property,
        Source::Arguments => Lookup::Arguments,
        Source::Properties => Lookup::Properties,
        Source::Child => Lookup::Child,
        Source::Children => Lookup::Children { filtered: options.name.is_some() },
        Source::Flatten => Lookup::Flatten,
        Source::NodeName => Lookup::NodeName,
    };
    let inner = match source {
        Source::Argument | Source::Property => optional && options.str_value,
        Source::Child => optional,
        _ => false,
    };
    let from_str = options.str_value;
    let reading = match source {
        Source::Child | Source::Children => match options.unwrap {
            None => Reading::Node,
            Some(Unwrap::Argument) => Reading::UnwrapArgument { from_str },
            Some(Unwrap::Arguments) => Reading::UnwrapArguments { from_str },
            Some(Unwrap::Properties) => Reading::UnwrapProperties,
        },
        Source::Flatten => Reading::Delegate,
        Source::NodeName => Reading::ParseName,
        _ => Reading::Scalar { from_str },
    };
    let absent = match source {
        Source::Arguments | Source::Properties | Source::Children => match &options.default {
            Some(DefaultValue::Expression(sites)) => Absent::Expression(copy_sites(sites)),
            _ => Absent::Empty,
        },
        Source::Flatten | Source::NodeName => Absent::Never,
        _ => match &options.default {
            Some(DefaultValue::Expression(sites)) => Absent::Expression(copy_sites(sites)),
            Some(DefaultValue::Implicit) => Absent::Default,
            None => if optional {
                Absent::Nothing
            } else {
                Absent::Missing(missing_message(source, plan.name.as_str()))
            },
        },
    };
    ValuePlan { lookup, inner, reading, absent }
}


/// Whether `tree` is the keyword that starts a struct, enum or union.
pub open spec fn declares(tree: Tree) -> bool {
    tree matches Tree::Ident { text, .. } && (text@ == "struct"@ || text@ == "enum"@ || text@
        == "union"@)
}

/// Whether `tree` is the keyword that starts a struct, enum or union, and
/// whether it is `enum`.
fn declaration_kind(tree: &Tree) -> (kind: Option<bool>)
    ensures
        kind is Some <==> declares(*tree),
        kind == Some(true) <==> (*tree matches Tree::Ident { text, .. } && text@ == "enum"@),
{
    proof {
        reveal_strlit("struct");
        reveal_strlit("enum");
        reveal_strlit("union");
    }
    match tree {
        Tree::Ident { text, .. } => {
            if same_text(text.as_str(), "enum") {
                Some(true)
            } else if same_text(text.as_str(), "struct") || same_text(text.as_str(), "union") {
                Some(false)
            } else {
                None
            }
        },
        _ => None,
    }
}

/// Removes the trees from `start` up to `end`.
fn remove_range(trees: &mut Vec<Tree>, start: usize, end: usize)
    requires
        start <= end <= old(trees)@.len(),
    ensures
        final(trees)@ == old(trees)@.subrange(0, start as int) + old(trees)@.subrange(
            end as int,
            old(trees)@.len() as int,
        ),
{
    let mut removed: usize = 0;
    while removed < end - start
        invariant
            start <= end <= old(trees)@.len(),
            removed <= end - start,
            trees@ == old(trees)@.subrange(0, start as int) + old(trees)@.subrange(
                start + removed,
                old(trees)@.len() as int,
            ),
        decreases end - start - removed,
    {
        trees.remove(start);
        proof {
            assert(trees@ =~= old(trees)@.subrange(0, start as int) + old(trees)@.subrange(
                start + removed + 1,
                old(trees)@.len() as int,
            ));
        }
        removed = removed + 1;
    }
}

/// The trees of an enum body without the `= ...` discriminants of its
/// variants: each `=` goes together with the expression after it, up to the
/// comma that ends it.
pub open spec fn without_discriminants(trees: Seq<Tree>) -> Seq<Tree>
    decreases trees.len(),
{
    if trees.len() == 0 {
        Seq::empty()
    } else if crate::derive::syntax::punct_is(Some(trees[0]), '=') {
        let length = crate::derive::attributes::first_stop(trees.skip(1));
        proof {
            crate::derive::attributes::lemma_stop_bounds(trees.skip(1), 0);
        }
        without_discriminants(trees.skip(1 + length))
    } else {
        seq![trees[0]] + without_discriminants(trees.skip(1))
    }
}

/// Removes the `= ...` discriminants from the variants of an enum body.
fn strip_discriminants(variants: &mut Vec<Tree>)
    ensures
        final(variants)@ == without_discriminants(old(variants)@),
        final(variants)@.len() <= old(variants)@.len(),
{
    let mut index: usize = 0;
    proof {
        assert(variants@.take(0) =~= Seq::<Tree>::empty());
        assert(variants@.skip(0) =~= variants@);
        assert(Seq::<Tree>::empty() + without_discriminants(variants@) =~= without_discriminants(
            variants@,
        ));
    }
    while index < variants.len()
        invariant
            variants@.len() <= old(variants)@.len(),
            index <= variants@.len(),
            without_discriminants(old(variants)@) == variants@.take(index as int)
                + without_discriminants(variants@.skip(index as int)),
        decreases variants@.len() - index,
    {
        let ghost before = variants@;
        if crate::derive::syntax::is_punct(Some(&variants[index]), '=') {
            let (_, after) = variants.as_slice().split_at(index + 1);
            let length = crate::derive::syntax::expression_end(after);
            proof {
                let rest = before.skip(index as int);
                assert(rest.skip(1) =~= after@);
                crate::derive::attributes::lemma_stop_from(after@, 0, length as int);
                if (length as int) < after@.len() {
                    assert(crate::derive::attributes::stop_from(after@, length as int) == length);
                } else {
                    assert(crate::derive::attributes::stop_from(after@, length as int) == length);
                }
                assert(rest[0] == before[index as int]);
            }
            remove_range(variants, index, index + 1 + length);
            proof {
                let rest = before.skip(index as int);
                assert(variants@.take(index as int) =~= before.take(index as int));
                assert(variants@.skip(index as int) =~= rest.skip(1 + length));
            }
        } else {
            proof {
                let rest = before.skip(index as int);
                assert(rest[0] == before[index as int]);
                assert(rest.skip(1) =~= before.skip(index + 1));
                assert(before.take(index + 1) =~= before.take(index as int).push(before[index as int]));
                assert(seq![rest[0]] + without_discriminants(rest.skip(1)) =~= seq![rest[0]]
                    + without_discriminants(before.skip(index + 1)));
                assert(before.take(index as int) + (seq![rest[0]] + without_discriminants(
                    before.skip(index + 1),
                )) =~= before.take(index + 1) + without_discriminants(before.skip(index + 1)));
            }
            index = index + 1;
        }
    }
    proof {
        assert(variants@.skip(index as int) =~= Seq::<Tree>::empty());
        assert(variants@.take(index as int) =~= variants@);
        assert(variants@ + Seq::<Tree>::empty() =~= variants@);
    }
}

/// The index of the first tree of `trees` from `k` on that declares a
/// struct, enum or union, or their number when none does.
pub open spec fn first_declaring(trees: Seq<Tree>, k: int) -> int
    decreases trees.len() - k,
{
    if k < 0 || k >= trees.len() {
        trees.len() as int
    } else if declares(trees[k]) {
        k
    } else {
        first_declaring(trees, k + 1)
    }
}

/// When no tree from `k` up to `start` declares an item and the one at
/// `start` does, the first declaring tree from `k` is at `start`.
proof fn lemma_first_declaring(trees: Seq<Tree>, k: int, start: int)
    requires
        0 <= k <= start < trees.len(),
        declares(trees[start]),
        forall|j: int| k <= j < start ==> !declares(#[trigger] trees[j]),
    ensures
        first_declaring(trees, k) == start,
    decreases start - k,
{
    if k < start {
        lemma_first_declaring(trees, k + 1, start);
    }
}

/// Whether a generic parameter list follows the name of the item declared
/// at `d`.
pub open spec fn has_generics(trees: Seq<Tree>, d: int) -> bool {
    d + 2 < trees.len() && crate::derive::syntax::punct_is(Some(trees[d + 2]), '<')
}

/// Whether `tree` is the keyword `enum`.
pub open spec fn enum_keyword(tree: Tree) -> bool {
    tree matches Tree::Ident { text, .. } && text@ == "enum"@
}

/// Whether `after` is `before` with, for an enum, the discriminants taken out
/// of a final braced body, which keeps its site.
pub open spec fn body_normalized(before: Seq<Tree>, after: Seq<Tree>, is_enum: bool) -> bool {
    if is_enum && before.len() > 0 && (before.last() matches Tree::Group { delimiter, .. }
        && delimiter == Bracket::Brace) {
        &&& after.len() == before.len()
        &&& after.drop_last() == before.drop_last()
        &&& match (before.last(), after.last()) {
            (
                Tree::Group { inner: old_inner, site: old_site, .. },
                Tree::Group { delimiter, inner, site },
            ) => delimiter == Bracket::Brace && site == old_site && inner@ == without_discriminants(
                old_inner@,
            ),
            _ => false,
        }
    } else {
        after == before
    }
}

/// Where the default value of a generic parameter, read from `k` on at angle
/// depth `depth`, ends, and the depth there: at the first `,` or `>` at depth
/// one, or at the end of the trees.
pub open spec fn default_end(trees: Seq<Tree>, k: int, depth: nat) -> (int, nat)
    decreases trees.len() - k,
{
    if k < 0 || k >= trees.len() || (depth == 1 && (punct_is(Some(trees[k]), ',') || punct_is(
        Some(trees[k]),
        '>',
    ))) {
        (k, depth)
    } else {
        default_end(trees, k + 1, depth_after(trees, k, depth))
    }
}

/// A default read from `k` ends between `k` and the end of the trees.
pub proof fn lemma_default_end(trees: Seq<Tree>, k: int, depth: nat)
    requires
        0 <= k <= trees.len(),
    ensures
        k <= default_end(trees, k, depth).0 <= trees.len(),
    decreases trees.len() - k,
{
    if k < trees.len() {
        lemma_default_end(trees, k + 1, depth_after(trees, k, depth));
    }
}

/// The trees with the defaults taken out of the generic parameter list read
/// from `k` on at angle depth `depth`: each `=` at depth one goes, with what
/// follows it up to where its default ends; the scan stops where the list
/// closes.
pub open spec fn generics_stripped(trees: Seq<Tree>, k: int, depth: nat) -> Seq<Tree>
    decreases trees.len() - k,
{
    if k < 0 || k >= trees.len() {
        trees
    } else if punct_is(Some(trees[k]), '=') && depth == 1 {
        let (stop, inner) = default_end(trees, k + 1, depth);
        proof {
            lemma_default_end(trees, k + 1, depth);
        }
        let cut = trees.take(k) + trees.skip(stop);
        if k >= cut.len() || depth_after(cut, k, inner) == 0 {
            cut
        } else {
            generics_stripped(cut, k + 1, depth_after(cut, k, inner))
        }
    } else if depth_after(trees, k, depth) == 0 {
        trees
    } else {
        generics_stripped(trees, k + 1, depth_after(trees, k, depth))
    }
}

/// Strips unsupported generic defaults and discriminant expressions from the
/// tokens of a derive input, so that what is left can be parsed as an item.
pub fn normalize_derive(input: Vec<Tree>) -> (result: Result<Vec<Tree>, DeriveError>)
    requires
        input@.len() < usize::MAX,
    ensures
        result is Err <==> forall|k: int| 0 <= k < input@.len() ==> !declares(#[trigger] input@[k]),
        result matches Err(error) ==> error.site is None && error.message@
            == "expected a struct or enum"@,
        result matches Ok(normalized) ==> normalized@.len() <= input@.len(),
        result matches Ok(normalized) ==> ({
            let d = first_declaring(input@, 0);
            body_normalized(
                if has_generics(input@, d) {
                    generics_stripped(input@, d + 3, 1)
                } else {
                    input@
                },
                normalized@,
                enum_keyword(input@[d]),
            )
        }),
{
    let mut tokens = input;
    let total = tokens.len();
    let mut start: usize = 0;
    let mut kind: Option<bool> = None;
    while start < tokens.len()
        invariant
            tokens@ == input@,
            tokens@.len() == total,
            start <= total,
            forall|k: int| 0 <= k < start ==> !declares(#[trigger] tokens@[k]),
            kind is Some ==> start < total && declares(tokens@[start as int]),
            kind is Some ==> (kind == Some(true) <==> enum_keyword(tokens@[start as int])),
        ensures
            kind is Some || start == total,
            kind is Some ==> start < total && declares(tokens@[start as int]),
            kind is Some ==> (kind == Some(true) <==> enum_keyword(tokens@[start as int])),
        decreases total - start + if kind is Some {
            0int
        } else {
            1int
        },
    {
        kind = declaration_kind(&tokens[start]);
        if kind.is_some() {
            break;
        }
        start = start + 1;
    }
    let is_enum = match kind {
        Some(is_enum) => is_enum,
        None => {
            return Err(
                DeriveError { site: None, message: "expected a struct or enum".to_owned() },
            );
        },
    };
    proof {
        lemma_first_declaring(input@, 0, start as int);
        assert(is_enum == enum_keyword(input@[start as int]));
    }
    let generics = tokens.len() - start > 2 && crate::derive::syntax::is_punct(
        Some(&tokens[start + 2]),
        '<',
    );
    if generics {
        let mut depth: usize = 1;
        let mut index: usize = start + 3;
        while index < tokens.len()
            invariant
                tokens@.len() <= total,
                total == input@.len(),
                total < usize::MAX,
                index <= tokens@.len() + 1,
                depth + (tokens@.len() - index) <= total,
                start + 3 <= index,
                generics_stripped(input@, start + 3, 1) == generics_stripped(
                    tokens@,
                    index as int,
                    depth as nat,
                ),
            ensures
                tokens@.len() <= total,
                generics_stripped(input@, start + 3, 1) == tokens@,
            decreases tokens@.len() + 1 - index,
        {
            let ghost whole = generics_stripped(tokens@, index as int, depth as nat);
            if crate::derive::syntax::is_punct(Some(&tokens[index]), '=') && depth == 1 {
                let default_start = index;
                let ghost kept = tokens@;
                index = index + 1;
                while index < tokens.len()
                    invariant
                        tokens@ == kept,
                        tokens@.len() <= total,
                        total == input@.len(),
                        total < usize::MAX,
                        default_start < index <= tokens@.len(),
                        depth + (tokens@.len() - index) <= total,
                        default_end(kept, default_start + 1, 1) == default_end(
                            kept,
                            index as int,
                            depth as nat,
                        ),
                    ensures
                        default_end(kept, default_start + 1, 1) == (index as int, depth as nat),
                    decreases tokens@.len() - index,
                {
                    if depth == 1 && (crate::derive::syntax::is_punct(Some(&tokens[index]), ',')
                        || crate::derive::syntax::is_punct(Some(&tokens[index]), '>')) {
                        break;
                    }
                    crate::derive::syntax::angle_depth(tokens.as_slice(), index, &mut depth);
                    index = index + 1;
                }
                remove_range(&mut tokens, default_start, index);
                proof {
                    assert(tokens@ =~= kept.take(default_start as int) + kept.skip(index as int));
                }
                index = default_start;
            }
            if index < tokens.len() {
                crate::derive::syntax::angle_depth(tokens.as_slice(), index, &mut depth);
            }
            if depth == 0 {
                break;
            }
            index = index + 1;
        }
    }
    proof {
        if !generics {
            assert(!has_generics(input@, start as int));
            assert(tokens@ == input@);
        } else {
            assert(has_generics(input@, start as int));
        }
    }
    let ghost before = tokens@;
    if is_enum && tokens.len() > 0 {
        let last = tokens.pop();
        match last {
            Some(Tree::Group { delimiter: Bracket::Brace, inner, site }) => {
                let ghost old_inner = inner@;
                let mut variants = inner;
                strip_discriminants(&mut variants);
                tokens.push(Tree::Group { delimiter: Bracket::Brace, inner: variants, site });
                proof {
                    assert(tokens@.drop_last() =~= before.drop_last());
                }
            },
            Some(other) => {
                tokens.push(other);
                proof {
                    assert(tokens@ =~= before);
                }
            },
            None => {},
        }
    }
    Ok(tokens)
}

} // verus!
