//! Reading the `#[knead(...)]` attributes of a field into its decoding
//! options, and checking that the options fit together.
use vstd::prelude::*;

use crate::derive::syntax::{decode_string, expression_end, literal_text, punct_is, Bracket, DeriveError, Tree};
use crate::text::same_text;

verus! {

/// Node location or decoding strategy used to populate a struct field.
#[derive(Clone, Copy, Debug, PartialEq, Eq, Structural)]
pub enum Source {
    /// Reads the next positional argument from the node.
    Argument,
    /// Collects all remaining positional arguments into a collection.
    Arguments,
    /// Reads a property matching the field name or explicit attribute name.
    Property,
    /// Collects all remaining properties into a map structure.
    Properties,
    /// Decodes a single nested child node matching the field or specified name.
    Child,
    /// Collects multiple nested child nodes into a collection.
    Children,
    /// Delegates decoding of the current node to the field type directly.
    Flatten,
    /// Parses the tag identifier of the node itself into the field.
    NodeName,
}

/// Strategy for extracting inner values from a child node instead of decoding a
/// nested struct.
#[derive(Clone, Copy, Debug, PartialEq, Eq, Structural)]
pub enum Unwrap {
    /// Extracts the single positional argument from the child node.
    Argument,
    /// Extracts all positional arguments from the child node into a collection.
    Arguments,
    /// Extracts all properties from the child node into a key-value collection.
    Properties,
}

/// Fallback value used when an optional or absent field is not present in the
/// node.
#[derive(Debug)]
pub enum DefaultValue {
    /// Uses the standard `Default` trait implementation for the field type.
    Implicit,
    /// Evaluates a custom expression provided by the user in the attribute,
    /// given by the sites of its token trees.
    Expression(Vec<usize>),
}

/// Validated configuration parsed from `#[knead(...)]` attributes on a field.
#[derive(Debug)]
pub struct Options {
    /// Location within the KDL node where the field value originates.
    pub source: Source,
    /// Explicit KDL identifier override when different from the Rust field name.
    pub name: Option<String>,
    /// Fallback construction rule applied when the field is omitted from the
    /// input.
    pub default: Option<DefaultValue>,
    /// Shorthand extraction mode applied to child nodes without full struct
    /// decoding.
    pub unwrap: Option<Unwrap>,
    /// Whether to decode the value by parsing a string representation via
    /// `FromStr`.
    pub str_value: bool,
}

/// One attribute of an item, a field or a variant.
#[derive(Debug)]
pub struct Attribute {
    /// The attribute's path, when it is a single identifier.
    pub name: Option<String>,
    /// The delimiter and the trees of the attribute's value, when the value is
    /// a delimited group.
    pub group: Option<(Bracket, Vec<Tree>)>,
    /// The trees of the value written one after the other without spaces.
    pub text: String,
    /// Where the attribute is, for errors about it as a whole.
    pub site: usize,
}

/// Intermediate attribute collector used to aggregate settings before
/// validation.
struct Accum {
    /// Staged node location setting parsed from field attributes.
    source: Option<Source>,
    /// Staged explicit name override parsed from field attributes.
    name: Option<String>,
    /// Staged fallback value rule parsed from field attributes.
    default: Option<DefaultValue>,
    /// Staged child unwrapping mode parsed from field attributes.
    unwrap: Option<Unwrap>,
    /// Staged flag indicating whether `str` parsing was requested.
    str_flag: bool,
}

/// Whether a set of options fits together: `flatten` and `node_name` stand
/// alone, a name goes with a property or child lookup, unwrapping with a child
/// lookup, and `str` with a single argument, property or unwrapped argument.
pub open spec fn options_fit(
    source: Source,
    named: bool,
    defaulted: bool,
    unwrap: Option<Unwrap>,
    str_value: bool,
) -> bool {
    &&& source == Source::Flatten ==> !named && !defaulted && unwrap is None && !str_value
    &&& source == Source::NodeName ==> !named && !defaulted && unwrap is None && !str_value
    &&& named ==> source == Source::Property || source == Source::Child || source
        == Source::Children
    &&& unwrap is Some ==> source == Source::Child || source == Source::Children
    &&& str_value ==> unwrap != Some(Unwrap::Properties) && unwrap != Some(Unwrap::Arguments)
    &&& str_value && (source == Source::Child || source == Source::Children) ==> unwrap == Some(
        Unwrap::Argument,
    )
}

/// The message `field_options` gives for options that do not fit together,
/// checked in the order the rules are listed, or `None` when they fit.
pub open spec fn misfit(
    source: Source,
    named: bool,
    defaulted: bool,
    unwrap: Option<Unwrap>,
    str_value: bool,
) -> Option<Seq<char>> {
    if source == Source::Flatten {
        if named || defaulted || unwrap is Some || str_value {
            Some("flatten cannot be combined with other options"@)
        } else {
            None
        }
    } else if source == Source::NodeName {
        if defaulted {
            Some("default cannot be used with node_name or flatten"@)
        } else if named {
            Some("name fits only property child and children fields"@)
        } else if unwrap is Some {
            Some("unwrap fits only child and children fields"@)
        } else if str_value {
            Some("str needs argument property or unwrap argument"@)
        } else {
            None
        }
    } else if named && source != Source::Property && source != Source::Child && source
        != Source::Children {
        Some("name fits only property child and children fields"@)
    } else if unwrap is Some && source != Source::Child && source != Source::Children {
        Some("unwrap fits only child and children fields"@)
    } else if str_value && (unwrap == Some(Unwrap::Properties) || unwrap == Some(
        Unwrap::Arguments,
    )) {
        Some("str fits only unwrap argument"@)
    } else if str_value && (source == Source::Child || source == Source::Children) && unwrap
        != Some(Unwrap::Argument) {
        Some("str needs argument property or unwrap argument"@)
    } else {
        None
    }
}

/// Options that draw no message fit together.
pub proof fn lemma_misfit_none_fits(
    source: Source,
    named: bool,
    defaulted: bool,
    unwrap: Option<Unwrap>,
    str_value: bool,
)
    ensures
        misfit(source, named, defaulted, unwrap, str_value) is None <==> options_fit(
            source,
            named,
            defaulted,
            unwrap,
            str_value,
        ),
{
}

/// The source a bare keyword names, if it names one.
pub open spec fn source_keyword(word: Seq<char>) -> Option<Source> {
    if word == "argument"@ {
        Some(Source::Argument)
    } else if word == "arguments"@ {
        Some(Source::Arguments)
    } else if word == "property"@ {
        Some(Source::Property)
    } else if word == "properties"@ {
        Some(Source::Properties)
    } else if word == "child"@ {
        Some(Source::Child)
    } else if word == "children"@ {
        Some(Source::Children)
    } else if word == "flatten"@ {
        Some(Source::Flatten)
    } else if word == "node_name"@ {
        Some(Source::NodeName)
    } else {
        None
    }
}

/// The source a bare keyword names, if it names one.
fn keyword_source(word: &str) -> (source: Option<Source>)
    ensures
        source == source_keyword(word@),
{
    proof {
        reveal_strlit("argument");
        reveal_strlit("arguments");
        reveal_strlit("property");
        reveal_strlit("properties");
        reveal_strlit("child");
        reveal_strlit("children");
        reveal_strlit("flatten");
        reveal_strlit("node_name");
    }
    if same_text(word, "argument") {
        Some(Source::Argument)
    } else if same_text(word, "arguments") {
        Some(Source::Arguments)
    } else if same_text(word, "property") {
        Some(Source::Property)
    } else if same_text(word, "properties") {
        Some(Source::Properties)
    } else if same_text(word, "child") {
        Some(Source::Child)
    } else if same_text(word, "children") {
        Some(Source::Children)
    } else if same_text(word, "flatten") {
        Some(Source::Flatten)
    } else if same_text(word, "node_name") {
        Some(Source::NodeName)
    } else {
        None
    }
}

/// Whether `error` points at `site` and says `message`.
pub open spec fn error_is(error: DeriveError, site: usize, message: Seq<char>) -> bool {
    error.site == Some(site) && error.message@ == message
}

/// The error for an unknown attribute `text` at `site`.
fn unknown(site: usize, text: &str) -> (error: DeriveError)
    ensures
        error_is(error, site, unknown_message(text@)),
{
    let mut message = "unknown knead attribute `".to_owned();
    message.append(text);
    message.append("`");
    DeriveError { site: Some(site), message }
}

/// The settings read from a field's attributes so far, as values.
pub struct Settings {
    pub source: Option<Source>,
    pub name: Option<Seq<char>>,
    /// `Some(None)` for a plain `default`, `Some(Some(sites))` for a
    /// `default = expression` whose trees are at `sites`.
    pub default: Option<Option<Seq<usize>>>,
    pub unwrap: Option<Unwrap>,
    pub str_flag: bool,
}

/// Where a problem with a field's attributes is reported, and what it says.
pub struct Complaint {
    pub site: usize,
    pub message: Seq<char>,
}

/// The outcome of a complaint at `site` saying `message`.
pub open spec fn complain(site: usize, message: Seq<char>) -> Result<Settings, Complaint> {
    Err(Complaint { site, message })
}

/// The settings before any attribute is read.
pub open spec fn no_settings() -> Settings {
    Settings { source: None, name: None, default: None, unwrap: None, str_flag: false }
}

/// A default as a value: plain, or the sites of its expression.
pub open spec fn default_view(default: Option<DefaultValue>) -> Option<Option<Seq<usize>>> {
    match default {
        None => None,
        Some(DefaultValue::Implicit) => Some(None),
        Some(DefaultValue::Expression(sites)) => Some(Some(sites@)),
    }
}

/// A name as a value.
pub open spec fn name_view(name: Option<String>) -> Option<Seq<char>> {
    match name {
        Some(text) => Some(text@),
        None => None,
    }
}

/// The settings that `options` holds.
pub open spec fn options_settings(options: Options) -> Settings {
    Settings {
        source: Some(options.source),
        name: name_view(options.name),
        default: default_view(options.default),
        unwrap: options.unwrap,
        str_flag: options.str_value,
    }
}

/// The settings that `accum` holds.
spec fn settings_of(accum: Accum) -> Settings {
    Settings {
        source: accum.source,
        name: name_view(accum.name),
        default: default_view(accum.default),
        unwrap: accum.unwrap,
        str_flag: accum.str_flag,
    }
}

/// Whether a step that returned `result` and left the settings `after` did
/// what `expected` says: reached those settings, or made that complaint.
spec fn reached(result: Result<(), DeriveError>, after: Settings, expected: Result<Settings, Complaint>) -> bool {
    match expected {
        Ok(settings) => result is Ok && after == settings,
        Err(complaint) => result matches Err(error) && error_is(error, complaint.site, complaint.message),
    }
}

/// `settings` with the source set to `source`.
pub open spec fn with_source(settings: Settings, source: Source) -> Settings {
    Settings {
        source: Some(source),
        name: settings.name,
        default: settings.default,
        unwrap: settings.unwrap,
        str_flag: settings.str_flag,
    }
}

/// The message for an attribute word that is not known.
pub open spec fn unknown_message(text: Seq<char>) -> Seq<char> {
    "unknown knead attribute `"@ + text + "`"@
}

/// What a bare word `text` at `site` does to `settings`.
pub open spec fn bare_setting(settings: Settings, text: Seq<char>, site: usize) -> Result<Settings, Complaint> {
    match source_keyword(text) {
        Some(source) => if settings.source is Some {
            complain(site, "conflicting knead attributes on one field"@)
        } else {
            Ok(with_source(settings, source))
        },
        None => if text == "str"@ {
            if settings.str_flag {
                complain(site, "duplicate str on one field"@)
            } else {
                Ok(
                    Settings {
                        source: settings.source,
                        name: settings.name,
                        default: settings.default,
                        unwrap: settings.unwrap,
                        str_flag: true,
                    },
                )
            }
        } else if text == "default"@ {
            if settings.default is Some {
                complain(site, "duplicate default on one field"@)
            } else {
                Ok(
                    Settings {
                        source: settings.source,
                        name: settings.name,
                        default: Some(None),
                        unwrap: settings.unwrap,
                        str_flag: settings.str_flag,
                    },
                )
            }
        } else {
            complain(site, unknown_message(text))
        },
    }
}

/// What `text = ...` at `site`, with `rest` the trees from the `=` on, does to
/// `settings`.
pub open spec fn assign_setting(settings: Settings, text: Seq<char>, site: usize, rest: Seq<Tree>) -> Result<Settings, Complaint> {
    if text == "default"@ {
        if settings.default is Some {
            complain(site, "duplicate default on one field"@)
        } else if rest.len() <= 1 {
            complain(site, "default needs an expression here"@)
        } else {
            Ok(
                Settings {
                    source: settings.source,
                    name: settings.name,
                    default: Some(
                        Some(
                            Seq::new(
                                (rest.len() - 1) as nat,
                                |k: int| crate::derive::syntax::site_of(rest[k + 1]),
                            ),
                        ),
                    ),
                    unwrap: settings.unwrap,
                    str_flag: settings.str_flag,
                },
            )
        }
    } else if text == "name"@ {
        complain(site, "name fits only property child and children fields"@)
    } else {
        complain(site, "expected default here"@)
    }
}

/// What an item `nested` of a `child(...)`, `property(...)` or
/// `children(...)` list does to `settings`: only `name = "..."` is allowed.
pub open spec fn name_setting(settings: Settings, nested: Seq<Tree>) -> Result<Settings, Complaint> {
    let expected_name = "expected name inside child property or children"@;
    let needs_literal = "name needs a string literal"@;
    match nested[0] {
        Tree::Ident { text, site: name_site } => if text@ != "name"@ || nested.len() < 2 {
            complain(name_site, expected_name)
        } else if !punct_is(Some(nested[1]), '=') {
            complain(crate::derive::syntax::site_of(nested[1]), expected_name)
        } else if nested.len() != 3 {
            complain(
                if nested.len() > 2 {
                    crate::derive::syntax::site_of(nested[2])
                } else {
                    name_site
                },
                needs_literal,
            )
        } else {
            match nested[2] {
                Tree::Literal { text: literal, site } => match literal_text(literal@) {
                    Some(decoded) => if settings.name is Some {
                        complain(name_site, "duplicate name on one field"@)
                    } else {
                        Ok(
                            Settings {
                                source: settings.source,
                                name: Some(decoded),
                                default: settings.default,
                                unwrap: settings.unwrap,
                                str_flag: settings.str_flag,
                            },
                        )
                    },
                    None => complain(site, needs_literal),
                },
                _ => complain(crate::derive::syntax::site_of(nested[2]), needs_literal),
            }
        },
        _ => complain(crate::derive::syntax::site_of(nested[0]), expected_name),
    }
}

/// The settings after the items of `list` from `k` on, the items of the
/// `child(...)`-like list `inner`, each read by `name_setting`.
pub open spec fn names_from(settings: Settings, inner: Seq<Tree>, list: Seq<ItemSpan>, k: int) -> Result<Settings, Complaint>
    decreases list.len() - k,
{
    if k < 0 || k >= list.len() {
        Ok(settings)
    } else {
        match list[k] {
            ItemSpan::Missing(site) => complain(site, "expected a simple name here"@),
            ItemSpan::Range(start, end) => match name_setting(settings, inner.subrange(start, end)) {
                Ok(next) => names_from(next, inner, list, k + 1),
                Err(complaint) => Err(complaint),
            },
        }
    }
}

/// What `child(...)`, `property(...)` or `children(...)` at `site`, choosing
/// `source`, with the trees `inner` in the brackets, does to `settings`.
pub open spec fn child_setting(settings: Settings, source: Source, site: usize, inner: Seq<Tree>) -> Result<Settings, Complaint> {
    if settings.source is Some {
        complain(site, "conflicting knead attributes on one field"@)
    } else {
        match names_from(settings, inner, item_list(inner, 0), 0) {
            Ok(named) => Ok(with_source(named, source)),
            Err(complaint) => Err(complaint),
        }
    }
}

/// The site of the first empty item of `list` from `k` on.
pub open spec fn first_missing(list: Seq<ItemSpan>, k: int) -> Option<usize>
    decreases list.len() - k,
{
    if k < 0 || k >= list.len() {
        None
    } else {
        match list[k] {
            ItemSpan::Missing(site) => Some(site),
            ItemSpan::Range(_, _) => first_missing(list, k + 1),
        }
    }
}

/// The site of the first tree of a list item.
pub open spec fn item_site(inner: Seq<Tree>, item: ItemSpan) -> usize {
    match item {
        ItemSpan::Range(start, _) => crate::derive::syntax::site_of(inner[start]),
        ItemSpan::Missing(site) => site,
    }
}

/// What `unwrap(...)` at `site`, with the trees `inner` in the brackets, does
/// to `settings`.
pub open spec fn unwrap_full(settings: Settings, site: usize, inner: Seq<Tree>) -> Result<Settings, Complaint> {
    let list = item_list(inner, 0);
    let expected_mode = "expected unwrap argument unwrap arguments or unwrap properties"@;
    match first_missing(list, 0) {
        Some(missing) => complain(missing, "expected a simple name here"@),
        None => if list.len() == 0 {
            complain(site, expected_mode)
        } else if list.len() > 2 {
            complain(site, "too many items inside unwrap"@)
        } else {
            match item_word(inner, list[0]) {
                Some(word) => match unwrap_keyword(word) {
                    Some(chosen) => if list.len() == 2 && item_word(inner, list[1]) != Some(
                        "str"@,
                    ) {
                        complain(item_site(inner, list[1]), "expected str after unwrap argument"@)
                    } else {
                        let with_str = list.len() == 2;
                        if with_str && chosen != Unwrap::Argument {
                            complain(site, "str fits only unwrap argument"@)
                        } else if settings.unwrap is Some {
                            complain(site, "duplicate unwrap on one field"@)
                        } else if with_str && settings.str_flag {
                            complain(site, "duplicate str on one field"@)
                        } else {
                            Ok(
                                Settings {
                                    source: settings.source,
                                    name: settings.name,
                                    default: settings.default,
                                    unwrap: Some(chosen),
                                    str_flag: settings.str_flag || with_str,
                                },
                            )
                        }
                    },
                    None => complain(item_site(inner, list[0]), expected_mode),
                },
                None => complain(item_site(inner, list[0]), expected_mode),
            }
        },
    }
}

/// What `text(...)` at `site`, with the trees `inner` in the brackets, does to
/// `settings`.
pub open spec fn list_setting(settings: Settings, text: Seq<char>, site: usize, inner: Seq<Tree>) -> Result<Settings, Complaint> {
    if text == "child"@ {
        child_setting(settings, Source::Child, site, inner)
    } else if text == "property"@ {
        child_setting(settings, Source::Property, site, inner)
    } else if text == "children"@ {
        child_setting(settings, Source::Children, site, inner)
    } else if text == "unwrap"@ {
        unwrap_full(settings, site, inner)
    } else {
        complain(site, unknown_message(text))
    }
}

/// What one item `item` of a `knead(...)` list does to `settings`.
pub open spec fn top_setting(settings: Settings, item: Seq<Tree>) -> Result<Settings, Complaint> {
    match item[0] {
        Tree::Ident { text, site } => {
            let rest = item.skip(1);
            if rest.len() == 0 {
                bare_setting(settings, text@, site)
            } else if rest.len() == 1 && rest[0] is Group {
                match rest[0] {
                    Tree::Group { delimiter, inner, site: group_site } => if delimiter
                        == Bracket::Parenthesis {
                        list_setting(settings, text@, site, inner@)
                    } else {
                        complain(group_site, "expected a simple name here"@)
                    },
                    _ => Ok(settings),
                }
            } else if punct_is(Some(rest[0]), '=') {
                assign_setting(settings, text@, site, rest)
            } else {
                complain(crate::derive::syntax::site_of(rest[0]), "expected a simple name here"@)
            }
        },
        _ => complain(crate::derive::syntax::site_of(item[0]), "expected a simple name here"@),
    }
}

/// The settings after the items of `list` from `k` on, the items of a
/// `knead(...)` list `inner`, each read by `top_setting`.
pub open spec fn tops_from(settings: Settings, inner: Seq<Tree>, list: Seq<ItemSpan>, k: int) -> Result<Settings, Complaint>
    decreases list.len() - k,
{
    if k < 0 || k >= list.len() {
        Ok(settings)
    } else {
        match list[k] {
            ItemSpan::Missing(site) => complain(site, "expected a simple name here"@),
            ItemSpan::Range(start, end) => match top_setting(settings, inner.subrange(start, end)) {
                Ok(next) => tops_from(next, inner, list, k + 1),
                Err(complaint) => Err(complaint),
            },
        }
    }
}

/// What one attribute of a field does to `settings`: a `knead(...)`
/// attribute reads its items, any other attribute is passed over.
pub open spec fn attribute_setting(settings: Settings, attribute: Attribute) -> Result<Settings, Complaint> {
    if !knead_attribute(attribute) {
        Ok(settings)
    } else {
        match attribute.group {
            Some((delimiter, inner)) => if delimiter == Bracket::Parenthesis {
                tops_from(settings, inner@, item_list(inner@, 0), 0)
            } else {
                complain(attribute.site, "expected parentheses here"@)
            },
            None => complain(attribute.site, "expected parentheses here"@),
        }
    }
}

/// The settings after the first `n` attributes of a field.
pub open spec fn attributes_setting(attributes: Seq<Attribute>, n: int) -> Result<Settings, Complaint>
    decreases n,
{
    if n <= 0 {
        Ok(no_settings())
    } else {
        match attributes_setting(attributes, n - 1) {
            Ok(settings) => attribute_setting(settings, attributes[n - 1]),
            Err(complaint) => Err(complaint),
        }
    }
}

/// What `field_options` gives for a field with `attributes` whose type is at
/// `ty_site`: the settings of its attributes when they name a source and fit
/// together, or the first complaint.
pub open spec fn field_outcome(attributes: Seq<Attribute>, ty_site: usize) -> Result<Settings, Complaint> {
    match attributes_setting(attributes, attributes.len() as int) {
        Ok(settings) => match settings.source {
            None => complain(ty_site, "field needs a knead attribute"@),
            Some(source) => match misfit(
                source,
                settings.name is Some,
                settings.default is Some,
                settings.unwrap,
                settings.str_flag,
            ) {
                Some(message) => complain(ty_site, message),
                None => Ok(settings),
            },
        },
        Err(complaint) => Err(complaint),
    }
}

/// A copy of `error`.
fn copy_error(error: &DeriveError) -> (copy: DeriveError)
    ensures
        copy.site == error.site,
        copy.message@ == error.message@,
{
    DeriveError { site: error.site, message: error.message.clone() }
}


/// Records a standalone identifier attribute without arguments into the
/// accumulator.
fn parse_bare(text: &str, site: usize, accum: &mut Accum) -> (result: Result<(), DeriveError>)
    ensures
        reached(result, settings_of(*final(accum)), bare_setting(settings_of(*old(accum)), text@, site)),
{
    proof {
        reveal_strlit("str");
        reveal_strlit("default");
    }
    if let Some(next) = keyword_source(text) {
        if accum.source.is_some() {
            return Err(DeriveError::at(site, "conflicting knead attributes on one field"));
        }
        accum.source = Some(next);
        return Ok(());
    }
    if same_text(text, "str") {
        if accum.str_flag {
            return Err(DeriveError::at(site, "duplicate str on one field"));
        }
        accum.str_flag = true;
        return Ok(());
    }
    if same_text(text, "default") {
        if accum.default.is_some() {
            return Err(DeriveError::at(site, "duplicate default on one field"));
        }
        accum.default = Some(DefaultValue::Implicit);
        return Ok(());
    }
    Err(unknown(site, text))
}

/// Returns whether a token is an ASCII equals sign punctuation mark.
fn is_equals(token: &Tree) -> (found: bool)
    ensures
        found == (*token matches Tree::Punct { symbol, .. } && symbol == '='),
{
    match token {
        Tree::Punct { symbol, .. } => *symbol == '=',
        _ => false,
    }
}

/// Extracts the identifier name if the token slice contains exactly one
/// identifier token.
fn single_ident_text(tokens: &[Tree]) -> (text: Option<&str>)
    ensures
        match text {
            Some(found) => tokens@.len() == 1 && (tokens@[0] matches Tree::Ident { text: word, .. }
                && word@ == found@),
            None => !(tokens@.len() == 1 && tokens@[0] is Ident),
        },
{
    if tokens.len() != 1 {
        return None;
    }
    match &tokens[0] {
        Tree::Ident { text, .. } => Some(text.as_str()),
        _ => None,
    }
}

/// The index of the first tree at or after `k` where an expression scan over
/// `trees` stops, or their number.
pub open spec fn stop_from(trees: Seq<Tree>, k: int) -> int
    decreases trees.len() - k,
{
    if k >= trees.len() {
        trees.len() as int
    } else if k >= 0 && crate::derive::syntax::scan_stops(
        trees,
        k,
        crate::derive::syntax::scan_before(trees, k),
    ) {
        k
    } else {
        stop_from(trees, k + 1)
    }
}

/// The index of the first tree where an expression scan over `trees` stops,
/// or their number.
pub open spec fn first_stop(trees: Seq<Tree>) -> int {
    stop_from(trees, 0)
}

/// The first stop from `k` lies between `k` and the number of trees.
pub proof fn lemma_stop_bounds(trees: Seq<Tree>, k: int)
    requires
        0 <= k <= trees.len(),
    ensures
        k <= stop_from(trees, k) <= trees.len(),
    decreases trees.len() - k,
{
    if k < trees.len() {
        lemma_stop_bounds(trees, k + 1);
    }
}

/// When no tree from `k` up to `end` stops the scan, the first stop from `k`
/// is the first stop from `end`.
pub proof fn lemma_stop_from(trees: Seq<Tree>, k: int, end: int)
    requires
        0 <= k <= end <= trees.len(),
        forall|j: int|
            k <= j < end ==> !#[trigger] crate::derive::syntax::scan_stops(
                trees,
                j,
                crate::derive::syntax::scan_before(trees, j),
            ),
    ensures
        stop_from(trees, k) == stop_from(trees, end),
    decreases end - k,
{
    if k < end {
        lemma_stop_from(trees, k + 1, end);
    }
}

/// Where one comma separated item of `trees` from `start` ends, and where the
/// next begins.
pub open spec fn item_bounds(trees: Seq<Tree>, start: int) -> (int, int) {
    let length = first_stop(trees.skip(start));
    (start + length, start + length + 1)
}

/// What an item of a list stands for: the range of its trees, or, when it is
/// empty, the site of the comma where it should have been.
pub enum ItemSpan {
    Range(int, int),
    Missing(usize),
}

/// The comma separated items of `trees` from `start` on.
pub open spec fn item_list(trees: Seq<Tree>, start: int) -> Seq<ItemSpan>
    decreases trees.len() + 1 - start,
{
    if start >= trees.len() || start < 0 {
        Seq::empty()
    } else {
        let (end, next) = item_bounds(trees, start);
        let item = if end == start {
            ItemSpan::Missing(crate::derive::syntax::site_of(trees[start]))
        } else {
            ItemSpan::Range(start, end)
        };
        if start < next <= trees.len() + 1 {
            seq![item] + item_list(trees, next)
        } else {
            seq![item]
        }
    }
}

/// Whether `part` is what `items` hands out for `item`.
pub open spec fn item_matches(part: Result<(usize, usize), DeriveError>, item: ItemSpan) -> bool {
    match item {
        ItemSpan::Range(start, end) => part matches Ok((a, b)) && a == start && b == end,
        ItemSpan::Missing(site) => part matches Err(error) && error_is(
            error,
            site,
            "expected a simple name here"@,
        ),
    }
}

/// The trees of `trees` from `start`.
fn rest_of(trees: &[Tree], start: usize) -> (rest: &[Tree])
    requires
        start <= trees@.len(),
    ensures
        rest@ == trees@.skip(start as int),
{
    let (_, rest) = trees.split_at(start);
    rest
}

/// Where the expression starting at `start` ends.
fn item_end(trees: &[Tree], start: usize) -> (end: usize)
    requires
        start <= trees@.len(),
    ensures
        end as int == item_bounds(trees@, start as int).0,
        start <= end <= trees@.len(),
{
    let total = trees.len();
    let rest = rest_of(trees, start);
    let length = expression_end(rest);
    proof {
        assert(rest@.len() == trees@.len() - start);
        lemma_stop_from(rest@, 0, length as int);
        if (length as int) < rest@.len() {
            assert(stop_from(rest@, length as int) == length);
        }
    }
    start + length
}

/// Iterates over comma-separated token sequences while respecting nested
/// expressions.
fn items(trees: &[Tree]) -> (parts: Vec<Result<(usize, usize), DeriveError>>)
    ensures
        parts@.len() == item_list(trees@, 0).len(),
        forall|k: int|
            0 <= k < parts@.len() ==> item_matches(#[trigger] parts@[k], item_list(trees@, 0)[k]),
        forall|k: int|
            0 <= k < parts@.len() ==> (#[trigger] parts@[k] matches Ok((start, end)) ==> start
                < end <= trees@.len()),
{
    let mut parts: Vec<Result<(usize, usize), DeriveError>> = Vec::new();
    let ghost mut seen: Seq<ItemSpan> = Seq::empty();
    let mut start: usize = 0;
    proof {
        assert(seen + item_list(trees@, 0) =~= item_list(trees@, 0));
    }
    while start < trees.len()
        invariant_except_break
            start <= trees@.len(),
            item_list(trees@, 0) == seen + item_list(trees@, start as int),
        invariant
            parts@.len() == seen.len(),
            forall|k: int| 0 <= k < parts@.len() ==> item_matches(#[trigger] parts@[k], seen[k]),
            forall|k: int|
                0 <= k < parts@.len() ==> (#[trigger] parts@[k] matches Ok((a, b)) ==> a < b
                    <= trees@.len()),
        ensures
            item_list(trees@, 0) == seen,
        decreases trees@.len() + 1 - start,
    {
        let end = item_end(trees, start);
        let ghost item = item_list(trees@, start as int)[0];
        proof {
            assert(item_list(trees@, start as int) =~= seq![item] + item_list(trees@, end + 1));
        }
        if end == start {
            parts.push(Err(DeriveError::at(trees[start].site(), "expected a simple name here")));
        } else {
            parts.push(Ok((start, end)));
        }
        proof {
            assert(seen + item_list(trees@, start as int) =~= seen.push(item) + item_list(
                trees@,
                end + 1,
            ));
            seen = seen.push(item);
        }
        if end == trees.len() {
            proof {
                assert(item_list(trees@, end + 1) =~= Seq::<ItemSpan>::empty());
            }
            break;
        }
        start = end + 1;
    }
    parts
}


/// The trees of `trees` from `start` up to `end`.
fn trees_between(trees: &[Tree], start: usize, end: usize) -> (part: &[Tree])
    requires
        start <= end <= trees@.len(),
    ensures
        part@ == trees@.subrange(start as int, end as int),
{
    let (head, _) = trees.split_at(end);
    let (_, part) = head.split_at(start);
    part
}

/// The sites of `trees`, in order.
fn sites_of(trees: &[Tree]) -> (sites: Vec<usize>)
    ensures
        sites@.len() == trees@.len(),
        forall|k: int|
            0 <= k < trees@.len() ==> #[trigger] sites@[k] == crate::derive::syntax::site_of(
                trees@[k],
            ),
{
    let mut sites: Vec<usize> = Vec::new();
    let mut index: usize = 0;
    while index < trees.len()
        invariant
            index <= trees@.len(),
            sites@.len() == index,
            forall|k: int|
                0 <= k < index ==> #[trigger] sites@[k] == crate::derive::syntax::site_of(
                    trees@[k],
                ),
        decreases trees@.len() - index,
    {
        sites.push(trees[index].site());
        index = index + 1;
    }
    sites
}

/// Parses a `name = "..."` assignment entry inside child or property attribute
/// lists.
fn parse_child_entry(nested: &[Tree], accum: &mut Accum) -> (result: Result<(), DeriveError>)
    requires
        nested@.len() >= 1,
    ensures
        reached(result, settings_of(*final(accum)), name_setting(settings_of(*old(accum)), nested@)),
{
    proof {
        reveal_strlit("name");
    }
    let first = &nested[0];
    let (name_text, name_site) = match first {
        Tree::Ident { text, site } => (text.as_str(), *site),
        _ => {
            return Err(DeriveError::at(first.site(), "expected name inside child property or children"));
        },
    };
    if !same_text(name_text, "name") {
        return Err(DeriveError::at(name_site, "expected name inside child property or children"));
    }
    if nested.len() < 2 {
        return Err(DeriveError::at(name_site, "expected name inside child property or children"));
    }
    if !is_equals(&nested[1]) {
        return Err(DeriveError::at(nested[1].site(), "expected name inside child property or children"));
    }
    if nested.len() != 3 {
        let complaint = if nested.len() > 2 {
            nested[2].site()
        } else {
            name_site
        };
        return Err(DeriveError::at(complaint, "name needs a string literal"));
    }
    let literal = match &nested[2] {
        Tree::Literal { text, .. } => text.as_str(),
        other => {
            return Err(DeriveError::at(other.site(), "name needs a string literal"));
        },
    };
    let decoded = match decode_string(literal) {
        Some(decoded) => decoded,
        None => {
            return Err(DeriveError::at(nested[2].site(), "name needs a string literal"));
        },
    };
    if accum.name.is_some() {
        return Err(DeriveError::at(name_site, "duplicate name on one field"));
    }
    accum.name = Some(decoded);
    Ok(())
}

/// The unwrap mode a keyword names, if it names one.
pub open spec fn unwrap_keyword(word: Seq<char>) -> Option<Unwrap> {
    if word == "argument"@ {
        Some(Unwrap::Argument)
    } else if word == "arguments"@ {
        Some(Unwrap::Arguments)
    } else if word == "properties"@ {
        Some(Unwrap::Properties)
    } else {
        None
    }
}

/// The word of a list item that is one identifier.
pub open spec fn item_word(trees: Seq<Tree>, item: ItemSpan) -> Option<Seq<char>> {
    match item {
        ItemSpan::Range(start, end) => if end == start + 1 && trees[start] is Ident {
            Some(trees[start]->Ident_text@)
        } else {
            None
        },
        ItemSpan::Missing(_) => None,
    }
}

/// Parses the target kind and optional `str` flag specified inside an
/// `unwrap(...)` attribute.
fn parse_unwrap_inner(site: usize, inner: &[Tree], accum: &mut Accum) -> (result: Result<(), DeriveError>)
    ensures
        reached(result, settings_of(*final(accum)), unwrap_full(settings_of(*old(accum)), site, inner@)),
        result is Err ==> final(accum).source == old(accum).source,
        result is Err ==> final(accum).name == old(accum).name,
        result is Err ==> final(accum).default == old(accum).default,
        result is Err ==> final(accum).str_flag == old(accum).str_flag,
        result matches Err(error) && error.message@ != "duplicate str on one field"@
            ==> final(accum).unwrap == old(accum).unwrap,
        result matches Err(error) ==> (final(accum).unwrap != old(accum).unwrap ==> old(
            accum).unwrap is None && final(accum).unwrap == Some(Unwrap::Argument) && error.message@
            == "duplicate str on one field"@),
{
    proof {
        reveal_strlit("argument");
        reveal_strlit("arguments");
        reveal_strlit("properties");
        reveal_strlit("str");
    }
    let parts = items(inner);
    let ghost list = item_list(inner@, 0);
    let mut index: usize = 0;
    while index < parts.len()
        invariant
            index <= parts@.len(),
            list == item_list(inner@, 0),
            parts@.len() == list.len(),
            forall|k: int| 0 <= k < parts@.len() ==> item_matches(#[trigger] parts@[k], list[k]),
            forall|k: int| 0 <= k < index ==> #[trigger] parts@[k] is Ok,
            first_missing(list, 0) == first_missing(list, index as int),
        decreases parts@.len() - index,
    {
        proof {
            assert(item_matches(parts@[index as int], list[index as int]));
        }
        if let Err(error) = &parts[index] {
            return Err(copy_error(error));
        }
        index = index + 1;
    }
    proof {
        let list = item_list(inner@, 0);
        assert forall|k: int| 0 <= k < list.len() implies #[trigger] list[k] is Range by {
            assert(item_matches(parts@[k], list[k]));
        }
    }
    if parts.len() == 0 {
        return Err(DeriveError::at(site, "expected unwrap argument unwrap arguments or unwrap properties"));
    }
    if parts.len() > 2 {
        return Err(DeriveError::at(site, "too many items inside unwrap"));
    }
    let (first_start, first_end) = match parts[0] {
        Ok(range) => range,
        Err(_) => {
            return Err(DeriveError::at(site, "too many items inside unwrap"));
        },
    };
    proof {
        assert(item_matches(parts@[0], item_list(inner@, 0)[0]));
    }
    let first_site = inner[first_start].site();
    let first = trees_between(inner, first_start, first_end);
    proof {
        assert(item_list(inner@, 0)[0] == ItemSpan::Range(first_start as int, first_end as int));
        if first@.len() == 1 {
            assert(first@[0] == inner@[first_start as int]);
        }
    }
    let chosen = match single_ident_text(first) {
        Some(word) => {
            if same_text(word, "argument") {
                Unwrap::Argument
            } else if same_text(word, "arguments") {
                Unwrap::Arguments
            } else if same_text(word, "properties") {
                Unwrap::Properties
            } else {
                return Err(DeriveError::at(first_site, "expected unwrap argument unwrap arguments or unwrap properties"));
            }
        },
        None => {
            return Err(DeriveError::at(first_site, "expected unwrap argument unwrap arguments or unwrap properties"));
        },
    };
    let with_str = if parts.len() == 2 {
        let (second_start, second_end) = match parts[1] {
            Ok(range) => range,
            Err(_) => {
                return Err(DeriveError::at(site, "too many items inside unwrap"));
            },
        };
        proof {
            assert(item_matches(parts@[1], item_list(inner@, 0)[1]));
        }
        let second_site = inner[second_start].site();
        let second = trees_between(inner, second_start, second_end);
        proof {
            assert(item_list(inner@, 0)[1] == ItemSpan::Range(second_start as int, second_end as int));
            if second@.len() == 1 {
                assert(second@[0] == inner@[second_start as int]);
            }
        }
        match single_ident_text(second) {
            Some(word) => {
                if !same_text(word, "str") {
                    return Err(DeriveError::at(second_site, "expected str after unwrap argument"));
                }
            },
            None => {
                return Err(DeriveError::at(second_site, "expected str after unwrap argument"));
            },
        }
        true
    } else {
        false
    };
    if with_str && chosen != Unwrap::Argument {
        return Err(DeriveError::at(site, "str fits only unwrap argument"));
    }
    if accum.unwrap.is_some() {
        return Err(DeriveError::at(site, "duplicate unwrap on one field"));
    }
    accum.unwrap = Some(chosen);
    if with_str {
        if accum.str_flag {
            return Err(DeriveError::at(site, "duplicate str on one field"));
        }
        accum.str_flag = true;
    }
    Ok(())
}

/// Parses an assignment attribute such as `default = <expr>` into the
/// accumulator.
fn parse_assign(text: &str, site: usize, rest: &[Tree], accum: &mut Accum) -> (result: Result<
    (),
    DeriveError,
>)
    requires
        rest@.len() >= 1,
    ensures
        reached(
            result,
            settings_of(*final(accum)),
            assign_setting(settings_of(*old(accum)), text@, site, rest@),
        ),
{
    proof {
        reveal_strlit("default");
        reveal_strlit("name");
    }
    if same_text(text, "default") {
        if accum.default.is_some() {
            return Err(DeriveError::at(site, "duplicate default on one field"));
        }
        let expression = trees_between(rest, 1, rest.len());
        if expression.len() == 0 {
            return Err(DeriveError::at(site, "default needs an expression here"));
        }
        let sites = sites_of(expression);
        proof {
            assert(sites@ =~= Seq::new(
                (rest@.len() - 1) as nat,
                |k: int| crate::derive::syntax::site_of(rest@[k + 1]),
            ));
        }
        accum.default = Some(DefaultValue::Expression(sites));
        return Ok(());
    }
    if same_text(text, "name") {
        return Err(DeriveError::at(site, "name fits only property child and children fields"));
    }
    Err(DeriveError::at(site, "expected default here"))
}

/// Parses entries nested inside a `child`, `property`, or `children` attribute
/// list.
fn parse_child_inner(next: Source, site: usize, inner: &[Tree], accum: &mut Accum) -> (result:
    Result<(), DeriveError>)
    ensures
        reached(
            result,
            settings_of(*final(accum)),
            child_setting(settings_of(*old(accum)), next, site, inner@),
        ),
{
    if accum.source.is_some() {
        return Err(DeriveError::at(site, "conflicting knead attributes on one field"));
    }
    let parts = items(inner);
    let ghost list = item_list(inner@, 0);
    let ghost start = settings_of(*accum);
    let mut index: usize = 0;
    while index < parts.len()
        invariant
            index <= parts@.len(),
            list == item_list(inner@, 0),
            parts@.len() == list.len(),
            forall|k: int| 0 <= k < parts@.len() ==> item_matches(#[trigger] parts@[k], list[k]),
            forall|k: int|
                0 <= k < parts@.len() ==> (#[trigger] parts@[k] matches Ok((a, b)) ==> a < b
                    <= inner@.len()),
            start == settings_of(*old(accum)),
            old(accum).source is None,
            names_from(start, inner@, list, 0) == names_from(
                settings_of(*accum),
                inner@,
                list,
                index as int,
            ),
        decreases parts@.len() - index,
    {
        proof {
            assert(item_matches(parts@[index as int], list[index as int]));
        }
        match &parts[index] {
            Ok((start, end)) => {
                let nested = trees_between(inner, *start, *end);
                parse_child_entry(nested, accum)?;
            },
            Err(error) => {
                return Err(copy_error(error));
            },
        }
        index = index + 1;
    }
    accum.source = Some(next);
    Ok(())
}

/// Dispatches parenthesized attribute lists like `child(...)` or `unwrap(...)`
/// to inner parsers.
fn parse_list(text: &str, site: usize, inner: &[Tree], accum: &mut Accum) -> (result: Result<
    (),
    DeriveError,
>)
    ensures
        reached(
            result,
            settings_of(*final(accum)),
            list_setting(settings_of(*old(accum)), text@, site, inner@),
        ),
{
    proof {
        reveal_strlit("child");
        reveal_strlit("property");
        reveal_strlit("children");
        reveal_strlit("unwrap");
    }
    if same_text(text, "child") {
        parse_child_inner(Source::Child, site, inner, accum)
    } else if same_text(text, "property") {
        parse_child_inner(Source::Property, site, inner, accum)
    } else if same_text(text, "children") {
        parse_child_inner(Source::Children, site, inner, accum)
    } else if same_text(text, "unwrap") {
        parse_unwrap_inner(site, inner, accum)
    } else {
        Err(unknown(site, text))
    }
}

/// Parses a single comma-separated attribute entry and dispatches to the
/// appropriate parser.
fn parse_top(item: &[Tree], accum: &mut Accum) -> (result: Result<(), DeriveError>)
    requires
        item@.len() >= 1,
    ensures
        reached(result, settings_of(*final(accum)), top_setting(settings_of(*old(accum)), item@)),
{
    let (text, site) = match &item[0] {
        Tree::Ident { text, site } => (text.as_str(), *site),
        other => {
            return Err(DeriveError::at(other.site(), "expected a simple name here"));
        },
    };
    let rest = trees_between(item, 1, item.len());
    if rest.len() == 0 {
        return parse_bare(text, site, accum);
    }
    if rest.len() == 1 {
        if let Tree::Group { delimiter, inner, site: group_site } = &rest[0] {
            if *delimiter == Bracket::Parenthesis {
                return parse_list(text, site, inner.as_slice(), accum);
            }
            return Err(DeriveError::at(*group_site, "expected a simple name here"));
        }
    }
    if is_equals(&rest[0]) {
        return parse_assign(text, site, rest, accum);
    }
    Err(DeriveError::at(rest[0].site(), "expected a simple name here"))
}

/// Whether `attribute` is a `knead` attribute.
pub open spec fn knead_attribute(attribute: Attribute) -> bool {
    attribute.name matches Some(name) && name@ == "knead"@
}

/// Whether `attribute` is named by a single identifier that is `knead`.
pub(crate) fn is_knead(attribute: &Attribute) -> (found: bool)
    ensures
        found == knead_attribute(*attribute),
{
    proof {
        reveal_strlit("knead");
    }
    match &attribute.name {
        Some(name) => same_text(name.as_str(), "knead"),
        None => false,
    }
}

/// Checks the collected settings of a field and turns them into its options.
fn check_options(accum: Accum, ty_site: usize) -> (result: Result<Options, DeriveError>)
    ensures
        match accum.source {
            None => result matches Err(error) && error_is(error, ty_site, "field needs a knead attribute"@),
            Some(source) => match misfit(
                source,
                accum.name is Some,
                accum.default is Some,
                accum.unwrap,
                accum.str_flag,
            ) {
                Some(message) => result matches Err(error) && error_is(error, ty_site, message),
                None => result matches Ok(options) && options.source == source && options.name
                    == accum.name && options.default == accum.default && options.unwrap
                    == accum.unwrap && options.str_value == accum.str_flag,
            },
        },
{
    let found_source = match accum.source {
        Some(source) => source,
        None => {
            return Err(DeriveError::at(ty_site, "field needs a knead attribute"));
        },
    };
    let named = accum.name.is_some();
    let defaulted = accum.default.is_some();
    let unwrap_set = accum.unwrap.is_some();
    let str_flag = accum.str_flag;
    if found_source == Source::Flatten {
        if named || defaulted || unwrap_set || str_flag {
            return Err(DeriveError::at(ty_site, "flatten cannot be combined with other options"));
        }
    } else if found_source == Source::NodeName {
        if defaulted {
            return Err(DeriveError::at(ty_site, "default cannot be used with node_name or flatten"));
        }
        if named {
            return Err(DeriveError::at(ty_site, "name fits only property child and children fields"));
        }
        if unwrap_set {
            return Err(DeriveError::at(ty_site, "unwrap fits only child and children fields"));
        }
        if str_flag {
            return Err(DeriveError::at(ty_site, "str needs argument property or unwrap argument"));
        }
    } else {
        if named && found_source != Source::Property && found_source != Source::Child
            && found_source != Source::Children {
            return Err(DeriveError::at(ty_site, "name fits only property child and children fields"));
        }
        if unwrap_set && found_source != Source::Child && found_source != Source::Children {
            return Err(DeriveError::at(ty_site, "unwrap fits only child and children fields"));
        }
        if str_flag && accum.unwrap == Some(Unwrap::Properties) {
            return Err(DeriveError::at(ty_site, "str fits only unwrap argument"));
        }
        if str_flag && accum.unwrap == Some(Unwrap::Arguments) {
            return Err(DeriveError::at(ty_site, "str fits only unwrap argument"));
        }
        if str_flag && (found_source == Source::Child || found_source == Source::Children)
            && accum.unwrap != Some(Unwrap::Argument) {
            return Err(DeriveError::at(ty_site, "str needs argument property or unwrap argument"));
        }
    }
    Ok(
        Options {
            source: found_source,
            name: accum.name,
            default: accum.default,
            unwrap: accum.unwrap,
            str_value: accum.str_flag,
        },
    )
}

/// Once reading the attributes has failed, reading more of them gives the
/// same complaint.
proof fn lemma_complaint_stays(attributes: Seq<Attribute>, n: int, m: int)
    requires
        0 <= n <= m,
        attributes_setting(attributes, n) is Err,
    ensures
        attributes_setting(attributes, m) == attributes_setting(attributes, n),
    decreases m - n,
{
    if n < m {
        lemma_complaint_stays(attributes, n, m - 1);
    }
}

/// Extracts and validates decoding options from the `knead` attributes on a
/// struct field.
pub fn field_options(attributes: &[Attribute], ty_site: usize) -> (result: Result<Options, DeriveError>)
    ensures
        match field_outcome(attributes@, ty_site) {
            Ok(settings) => result matches Ok(options) && options_settings(options) == settings,
            Err(complaint) => result matches Err(error) && error_is(
                error,
                complaint.site,
                complaint.message,
            ),
        },
        result matches Ok(options) ==> options_fit(
            options.source,
            options.name is Some,
            options.default is Some,
            options.unwrap,
            options.str_value,
        ),
        (forall|k: int| 0 <= k < attributes@.len() ==> !knead_attribute(#[trigger] attributes@[k]))
            ==> (result matches Err(error) && error_is(
                error,
                ty_site,
                "field needs a knead attribute"@,
            )),
{
    let mut accum = Accum { source: None, name: None, default: None, unwrap: None, str_flag: false };
    let mut index: usize = 0;
    while index < attributes.len()
        invariant
            index <= attributes@.len(),
            (forall|k: int| 0 <= k < index ==> !knead_attribute(#[trigger] attributes@[k]))
                ==> accum.source is None,
            attributes_setting(attributes@, index as int) == Ok::<Settings, Complaint>(
                settings_of(accum),
            ),
        decreases attributes@.len() - index,
    {
        let attribute = &attributes[index];
        proof {
            assert(attributes@[index as int] == *attribute);
        }
        if is_knead(attribute) {
            let inner = match &attribute.group {
                Some((delimiter, inner)) => {
                    if *delimiter != Bracket::Parenthesis {
                        proof {
                            lemma_complaint_stays(attributes@, index + 1, attributes@.len() as int);
                        }
                        return Err(DeriveError::at(attribute.site, "expected parentheses here"));
                    }
                    inner.as_slice()
                },
                None => {
                    proof {
                        lemma_complaint_stays(attributes@, index + 1, attributes@.len() as int);
                    }
                    return Err(DeriveError::at(attribute.site, "expected parentheses here"));
                },
            };
            let parts = items(inner);
            let ghost list = item_list(inner@, 0);
            let ghost before = settings_of(accum);
            proof {
                assert(attributes_setting(attributes@, index + 1) == tops_from(before, inner@, list, 0));
            }
            let mut part: usize = 0;
            while part < parts.len()
                invariant
                    part <= parts@.len(),
                    index < attributes@.len(),
                    knead_attribute(attributes@[index as int]),
                    list == item_list(inner@, 0),
                    parts@.len() == list.len(),
                    forall|k: int| 0 <= k < parts@.len() ==> item_matches(#[trigger] parts@[k], list[k]),
                    forall|k: int|
                        0 <= k < parts@.len() ==> (#[trigger] parts@[k] matches Ok((a, b)) ==> a < b
                            <= inner@.len()),
                    attributes_setting(attributes@, index + 1) == tops_from(before, inner@, list, 0),
                    tops_from(before, inner@, list, 0) == tops_from(
                        settings_of(accum),
                        inner@,
                        list,
                        part as int,
                    ),
                decreases parts@.len() - part,
            {
                proof {
                    assert(item_matches(parts@[part as int], list[part as int]));
                }
                match &parts[part] {
                    Ok((start, end)) => {
                        let item = trees_between(inner, *start, *end);
                        let step = parse_top(item, &mut accum);
                        if let Err(error) = step {
                            proof {
                                lemma_complaint_stays(attributes@, index + 1, attributes@.len() as int);
                            }
                            return Err(error);
                        }
                    },
                    Err(error) => {
                        proof {
                            lemma_complaint_stays(attributes@, index + 1, attributes@.len() as int);
                        }
                        return Err(copy_error(error));
                    },
                }
                part = part + 1;
            }
        }
        index = index + 1;
    }
    let result = check_options(accum, ty_site);
    proof {
        if result is Ok {
            let options = result->Ok_0;
            lemma_misfit_none_fits(
                options.source,
                options.name is Some,
                options.default is Some,
                options.unwrap,
                options.str_value,
            );
        }
    }
    result
}

} // verus!
