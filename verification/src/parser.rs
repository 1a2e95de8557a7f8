//! Recursive descent parser that builds the document from lexer tokens.
use std::borrow::Cow;
use std::collections::VecDeque;

use vstd::math::{max, min};
use vstd::prelude::*;

use crate::ast::{Document, Literal, Node, Property, Value};
use crate::dialect::Dialect;
use crate::errors::{syntax_error_in, Error};
use crate::lexer::{byte_at, failure_within, tag_of, token_read, token_read_at, word_token, Lexer, Tag, Token, TokenKind};
use crate::strings::{hash_keyword, name_read};
use crate::span::{lemma_join_within, span_within, Span, Spanned};
use crate::text::{cow_str, same_text, text_len};

verus! {

/// Nesting limit that `parse_node` refuses to exceed so hostile input cannot
/// overflow the stack.
pub const MAX_DEPTH: usize = 256;

/// Whether every error of `errors` points inside `text`.
pub open spec fn errors_within(errors: Seq<Error>, text: Seq<char>) -> bool {
    forall|i: int| 0 <= i < errors.len() ==> #[trigger] syntax_error_in(errors[i], text)
}

/// Whether `errors` are in order of their starting offsets.
pub open spec fn sorted_by_offset(errors: Seq<Error>) -> bool {
    forall|i: int, j: int|
        0 <= i <= j < errors.len() ==> #[trigger] errors[i].at().start_at() <= #[trigger] errors[j].at().start_at()
}

/// Whether the range of `document`, and every node in it at any depth, lies in
/// `text`.
pub open spec fn document_within<'src>(document: Document<'src>, text: Seq<char>) -> bool {
    &&& span_within(document.span, text)
    &&& forall|i: int|
        0 <= i < document.nodes@.len() ==> #[trigger] tree_within(document.nodes@[i], text)
}

/// Whether `node`, its parts and every node below it lie in `text`.
pub open spec fn tree_within<'src>(node: Node<'src>, text: Seq<char>) -> bool
    decreases node,
{
    &&& node_parts_within(node, text)
    &&& match node.children {
        Some(children) => forall|i: int|
            0 <= i < children.nodes@.len() ==> #[trigger] tree_within(children.nodes@[i], text),
        None => true,
    }
}

/// Whether `node` has at most `levels` levels of nodes: itself, its children,
/// their children and so on.
pub open spec fn nested_within<'src>(node: Node<'src>, levels: nat) -> bool
    decreases node,
{
    &&& levels >= 1
    &&& match node.children {
        Some(children) => forall|i: int|
            0 <= i < children.nodes@.len() ==> #[trigger] nested_within(
                children.nodes@[i],
                (levels - 1) as nat,
            ),
        None => true,
    }
}

/// Whether every node of `nodes` has at most `levels` levels of nodes.
pub open spec fn all_nested_within<'src>(nodes: Seq<Node<'src>>, levels: nat) -> bool {
    forall|i: int| 0 <= i < nodes.len() ==> nested_within(#[trigger] nodes[i], levels)
}

/// The most levels of nodes a parsed document holds: the top level and
/// `MAX_DEPTH` levels of children below it.
pub open spec fn depth_limit() -> nat {
    (MAX_DEPTH + 1) as nat
}

/// Whether `value` is what the name or string token covering `span` of
/// `text` reads as in `dialect`.
pub open spec fn name_read_at(dialect: Dialect, text: Seq<char>, span: Span, value: Seq<char>) -> bool {
    exists|i: int, j: int|
        0 <= i <= j <= text.len() && byte_at(text, i) == span.start_at() && byte_at(text, j)
            == span.stop_at() && #[trigger] name_read(dialect, text, i, j, value)
}

/// Whether `literal` is what the token from character `i` up to `j` of
/// `text` reads as: a string as `name_read` says, any other literal as its
/// word or `#` keyword says.
pub open spec fn literal_read<'src>(dialect: Dialect, text: Seq<char>, i: int, j: int, literal: Literal<'src>) -> bool {
    match literal {
        Literal::String(value) => name_read(dialect, text, i, j, value@),
        _ => word_token(TokenKind::Literal(literal), dialect, text.subrange(i, j)) || hash_keyword(
            TokenKind::Literal(literal),
            text.subrange(i, j),
        ),
    }
}

/// Whether `literal` is what the token covering `span` of `text` reads as.
pub open spec fn literal_read_at<'src>(dialect: Dialect, text: Seq<char>, span: Span, literal: Literal<'src>) -> bool {
    exists|i: int, j: int|
        0 <= i <= j <= text.len() && byte_at(text, i) == span.start_at() && byte_at(text, j)
            == span.stop_at() && #[trigger] literal_read(dialect, text, i, j, literal)
}

/// Whether the literal of `value` is what the token that ends its range
/// reads as, without a type annotation the token covering the whole range,
/// and whether its type annotation is what its own token reads as.
pub open spec fn value_read<'src>(dialect: Dialect, text: Seq<char>, value: Value<'src>) -> bool {
    &&& exists|i: int, j: int|
        0 <= i <= j <= text.len() && value.span.start_at() <= byte_at(text, i) && byte_at(text, j)
            == value.span.stop_at() && (value.type_annotation is None ==> byte_at(text, i)
            == value.span.start_at()) && #[trigger] literal_read(dialect, text, i, j, value.literal)
    &&& value.type_annotation matches Some(annotation) ==> name_read_at(
        dialect,
        text,
        annotation.span,
        annotation.value@,
    )
}

/// Whether the arguments of `node`, and the names and values of its
/// properties, are what their tokens in `text` read as.
pub open spec fn entries_read<'src>(node: Node<'src>, dialect: Dialect, text: Seq<char>) -> bool {
    &&& forall|i: int|
        0 <= i < node.arguments@.len() ==> value_read(dialect, text, #[trigger] node.arguments@[i])
    &&& forall|i: int|
        0 <= i < node.properties@.len() ==> name_read_at(
            dialect,
            text,
            (#[trigger] node.properties@[i]).name.span,
            node.properties@[i].name.value@,
        ) && value_read(dialect, text, node.properties@[i].value)
}

/// Whether the name and entries of `node`, and those of every node below it,
/// are what their tokens in `text` read as.
pub open spec fn tree_read<'src>(node: Node<'src>, dialect: Dialect, text: Seq<char>) -> bool
    decreases node,
{
    &&& name_read_at(dialect, text, node.name.span, node.name.value@)
    &&& node.type_annotation matches Some(annotation) ==> name_read_at(
        dialect,
        text,
        annotation.span,
        annotation.value@,
    )
    &&& entries_read(node, dialect, text)
    &&& match node.children {
        Some(children) => forall|i: int|
            0 <= i < children.nodes@.len() ==> tree_read(
                #[trigger] children.nodes@[i],
                dialect,
                text,
            ),
        None => true,
    }
}

/// Whether the name and entries of every node of `nodes`, and of every node
/// below them, are what their tokens in `text` read as.
pub open spec fn all_trees_read<'src>(nodes: Seq<Node<'src>>, dialect: Dialect, text: Seq<char>) -> bool {
    forall|i: int| 0 <= i < nodes.len() ==> tree_read(#[trigger] nodes[i], dialect, text)
}

/// A node whose name and entries read right, and whose children all do,
/// reads right as a whole.
proof fn lemma_tree_read<'src>(node: Node<'src>, dialect: Dialect, text: Seq<char>)
    requires
        name_read_at(dialect, text, node.name.span, node.name.value@),
        node.type_annotation matches Some(annotation) ==> name_read_at(
            dialect,
            text,
            annotation.span,
            annotation.value@,
        ),
        entries_read(node, dialect, text),
        node.children matches Some(children) ==> forall|i: int|
            0 <= i < children.nodes@.len() ==> tree_read(
                #[trigger] children.nodes@[i],
                dialect,
                text,
            ),
    ensures
        tree_read(node, dialect, text),
{
}

/// Whether `span` starts at or after `low` and ends at or before `high`.
pub open spec fn span_between(span: Span, low: int, high: int) -> bool {
    low <= span.start_at() && span.stop_at() <= high
}

/// Whether each node of `nodes` ends before the next one starts.
pub open spec fn nodes_in_order<'src>(nodes: Seq<Node<'src>>) -> bool {
    forall|i: int, j: int|
        0 <= i < j < nodes.len() ==> #[trigger] nodes[i].span.stop_at()
            <= #[trigger] nodes[j].span.start_at()
}

/// Whether the range of `node` covers its name, its arguments, its
/// properties and its children block, the nodes of that block lie inside the
/// block in source order, and the same holds of each of them.
pub open spec fn tree_in_order<'src>(node: Node<'src>) -> bool
    decreases node,
{
    &&& node.span.covers(node.name.span)
    &&& forall|i: int|
        0 <= i < node.arguments@.len() ==> node.span.covers(#[trigger] node.arguments@[i].span)
    &&& forall|i: int|
        0 <= i < node.properties@.len() ==> node.span.covers(#[trigger] node.properties@[i].span)
    &&& match node.children {
        Some(children) => {
            &&& node.span.covers(children.span)
            &&& nodes_in_order(children.nodes@)
            &&& forall|i: int|
                0 <= i < children.nodes@.len() ==> children.span.covers(
                    children.nodes@[i].span,
                ) && tree_in_order(#[trigger] children.nodes@[i])
        },
        None => true,
    }
}

/// Whether the nodes of `document` lie inside its range in source order, each
/// with its parts and children in order below it.
pub open spec fn document_in_order<'src>(document: Document<'src>) -> bool {
    &&& nodes_in_order(document.nodes@)
    &&& forall|i: int|
        0 <= i < document.nodes@.len() ==> document.span.covers(document.nodes@[i].span)
            && tree_in_order(#[trigger] document.nodes@[i])
}

/// Whether the children block `children` lies between `low` and `high` and
/// holds its nodes inside it in source order, each in order below.
pub open spec fn block_in_order<'src>(children: Document<'src>, low: int, high: int) -> bool {
    &&& span_between(children.span, low, high)
    &&& nodes_in_order(children.nodes@)
    &&& forall|i: int|
        0 <= i < children.nodes@.len() ==> children.span.covers(children.nodes@[i].span)
            && tree_in_order(#[trigger] children.nodes@[i])
}

/// A node whose range covers its name, entries and children block, whose
/// block is in order, is in order as a whole.
proof fn lemma_tree_in_order<'src>(node: Node<'src>, low: int, high: int)
    requires
        node.span.covers(node.name.span),
        forall|i: int|
            0 <= i < node.arguments@.len() ==> node.span.covers(#[trigger] node.arguments@[i].span),
        forall|i: int|
            0 <= i < node.properties@.len() ==> node.span.covers(#[trigger] node.properties@[i].span),
        node.children matches Some(children) ==> node.span.covers(children.span)
            && block_in_order(children, low, high),
    ensures
        tree_in_order(node),
{
}

/// Whether the spans of the arguments and properties of `node` all lie
/// between `low` and `high`.
pub open spec fn entries_between<'src>(node: Node<'src>, low: int, high: int) -> bool {
    &&& forall|i: int|
        0 <= i < node.arguments@.len() ==> span_between(#[trigger] node.arguments@[i].span, low, high)
    &&& forall|i: int|
        0 <= i < node.properties@.len() ==> span_between(
            #[trigger] node.properties@[i].span,
            low,
            high,
        )
}

/// A node whose children all have at most `levels - 1` levels has at most
/// `levels` levels.
proof fn lemma_nested_within<'src>(node: Node<'src>, levels: nat)
    requires
        levels >= 1,
        node.children matches Some(children) ==> forall|i: int|
            0 <= i < children.nodes@.len() ==> nested_within(
                #[trigger] children.nodes@[i],
                (levels - 1) as nat,
            ),
    ensures
        nested_within(node, levels),
{
}

/// A node whose parts lie in `text`, and whose children all do, lies in
/// `text` as a whole.
proof fn lemma_tree_within<'src>(node: Node<'src>, text: Seq<char>)
    requires
        node_parts_within(node, text),
        node.children matches Some(children) ==> forall|i: int|
            0 <= i < children.nodes@.len() ==> tree_within(#[trigger] children.nodes@[i], text),
    ensures
        tree_within(node, text),
{
}

/// The range from the start to the end of `text` lies in it.
proof fn lemma_whole_within(text: Seq<char>, span: Span)
    requires
        span.start_at() == 0,
        span.size() == text_len(text),
    ensures
        span_within(span, text),
{
    crate::text::lemma_boundary(text, 0);
    crate::text::lemma_boundary(text, text.len() as int);
    assert(text.take(0) =~= Seq::<char>::empty());
    assert(text.take(text.len() as int) =~= text);
}

/// Parses `source` in strict mode and returns the first error instead of a
/// document.
pub fn parse(source: &str, dialect: Dialect) -> (result: Result<Document<'_>, Error>)
    ensures
        result matches Ok(document) ==> document.span.start_at() == 0
            && document.span.size() == text_len(source@) && document_within(document, source@)
            && all_nested_within(document.nodes@, depth_limit())
            && document_in_order(document) && all_trees_read(document.nodes@, dialect, source@),
        result matches Err(error) ==> syntax_error_in(error, source@),
{
    let mut parser = Parser::new(Lexer::new(source, dialect))?;
    let document = parser.parse_document()?;
    proof {
        lemma_whole_within(source@, document.span);
    }
    Ok(document)
}

/// Parses `source` and keeps going after errors, returning whatever document
/// could be built together with every parser and lexer error sorted by offset.
pub fn parse_lenient(source: &str, dialect: Dialect) -> (outcome: (Document<'_>, Vec<Error>))
    ensures
        document_within(outcome.0, source@),
        all_nested_within(outcome.0.nodes@, depth_limit()),
        document_in_order(outcome.0),
        outcome.0.span.start_at() == 0,
        outcome.0.span.size() == text_len(source@) || outcome.0.span.size() == 0,
        errors_within(outcome.1@, source@),
        sorted_by_offset(outcome.1@),
        outcome.1@.len() == 0 ==> outcome.0.span.size() == text_len(source@) && all_trees_read(
            outcome.0.nodes@,
            dialect,
            source@,
        ),
{
    let mut parser = match Parser::new(Lexer::lenient(source, dialect)) {
        Ok(parser) => parser,
        Err(error) => {
            let mut errors = Vec::new();
            errors.push(error);
            proof {
                assert(errors@ =~= seq![error]);
                crate::text::lemma_boundary(source@, 0);
                assert(source@.take(0) =~= Seq::<char>::empty());
            }
            return (empty_document(), errors);
        },
    };
    let ghost start = parser;
    let document = match parser.parse_document() {
        Ok(document) => {
            proof {
                lemma_whole_within(source@, document.span);
            }
            document
        },
        Err(error) => {
            parser.errors.push(error);
            proof {
                crate::text::lemma_boundary(source@, 0);
                assert(source@.take(0) =~= Seq::<char>::empty());
            }
            empty_document()
        },
    };
    let ghost finished = parser;
    let mut errors = parser.errors;
    let mut lexer_errors = parser.lexer.errors;
    errors.append(&mut lexer_errors);
    proof {
        assert(errors@.len() == 0 ==> finished.clean());
    }
    proof {
        assert forall|i: int| 0 <= i < errors@.len() implies #[trigger] syntax_error_in(
            errors@[i],
            source@,
        ) by {
            if i >= parser.errors@.len() {
                assert(errors@[i] == parser.lexer.errors@[i - parser.errors@.len()]);
            }
        }
    }
    let ghost unsorted = errors@;
    sort_by_offset(&mut errors);
    proof {
        assert forall|i: int| 0 <= i < errors@.len() implies #[trigger] syntax_error_in(
            errors@[i],
            source@,
        ) by {
            let e = errors@[i];
            assert(errors@.contains(e));
            vstd::seq_lib::to_multiset_contains(errors@, e);
            vstd::seq_lib::to_multiset_contains(unsorted, e);
            let j = choose|j: int| 0 <= j < unsorted.len() && unsorted[j] == e;
            assert(syntax_error_in(unsorted[j], source@));
        }
    }
    (document, errors)
}

/// Whether a token with tag `tag` is blank: a space or a newline.
pub open spec fn blank(tag: Tag) -> bool {
    tag == Tag::Space || tag == Tag::Newline
}

/// A token with tag `tag` could start an argument or property: an opening
/// parenthesis, a name or a literal.
pub open spec fn starts_entry(tag: Tag) -> bool {
    tag == Tag::OpenParen || tag == Tag::Identifier || tag == Tag::String || tag == Tag::Literal
}

/// `start` joined, in turn, with each of `spans`.
pub open spec fn spans_joined(start: Span, spans: Seq<Span>) -> Span
    decreases spans.len(),
{
    if spans.len() == 0 {
        start
    } else {
        spans_joined(start, spans.drop_last()).joined(spans.last())
    }
}

/// The ranges of a node's arguments, then of its properties, then of its
/// children block if it has one.
pub open spec fn part_spans<'src>(node: Node<'src>) -> Seq<Span> {
    node.arguments@.map_values(|value: Value<'src>| value.span) + node.properties@.map_values(
        |property: Property<'src>| property.span,
    ) + match node.children {
        Some(children) => seq![children.span],
        None => Seq::empty(),
    }
}

/// Whether `node`'s range is its head, the name or the type annotation's
/// parenthesised prefix joined with the name, joined in turn with each of its
/// parts; the prefix starts at `start`.
pub open spec fn node_span_joined<'src>(node: Node<'src>, start: int) -> bool {
    if node.type_annotation is Some {
        exists|prefix: Span|
            prefix.start_at() == start && node.span == spans_joined(
                #[trigger] prefix.joined(node.name.span),
                part_spans(node),
            )
    } else {
        node.span == spans_joined(node.name.span, part_spans(node))
    }
}

/// How many more `{` than `}` tags `tags` hold.
pub open spec fn brace_depth(tags: Seq<Tag>) -> int
    decreases tags.len(),
{
    if tags.len() == 0 {
        0
    } else {
        brace_depth(tags.drop_last()) + if tags.last() == Tag::OpenBrace {
            1int
        } else if tags.last() == Tag::CloseBrace {
            -1int
        } else {
            0int
        }
    }
}

/// Whether a token with tag `tag` ends a node: a newline, a semicolon or a
/// closing brace.
pub open spec fn terminator(tag: Tag) -> bool {
    tag == Tag::Newline || tag == Tag::Semicolon || tag == Tag::CloseBrace
}

/// A document with no nodes and an empty range.
fn empty_document<'src>() -> (document: Document<'src>)
    ensures
        document.nodes@.len() == 0,
        document.span.start_at() == 0,
        document.span.size() == 0,
{
    Document { nodes: Vec::new(), span: Span::new(0, 0) }
}

/// The errors of `errors` that start at `offset`, in their order.
pub open spec fn at_offset(errors: Seq<Error>, offset: nat) -> Seq<Error> {
    errors.filter(|error: Error| error.at().start_at() == offset)
}

/// `slice::sort_by_key` on the starting offsets: a stable sort. The contract
/// states that the errors are the same ones, now sorted by offset, and that
/// the errors starting at any one offset keep their order.
#[verifier::external_body]
fn sort_by_offset(errors: &mut Vec<Error>)
    ensures
        final(errors)@.to_multiset() == old(errors)@.to_multiset(),
        final(errors)@.len() == old(errors)@.len(),
        sorted_by_offset(final(errors)@),
        forall|offset: nat| #[trigger] at_offset(final(errors)@, offset) == at_offset(old(errors)@, offset),
{
    errors.sort_by_key(|error| error.span().offset());
}

/// One argument or property parsed from a node line before it is attached to
/// the node.
enum Entry<'src> {
    /// A positional value that is appended to the node arguments in order.
    Argument(Value<'src>),
    /// A named value whose name replaces any earlier property with the same
    /// name.
    Property(Spanned<Cow<'src, str>>, Value<'src>),
}

/// The properties of `properties` whose name is not `name`.
pub open spec fn other_properties<'src>(properties: Seq<Property<'src>>, name: Seq<char>) -> Seq<
    Property<'src>,
> {
    properties.filter(|property: Property<'src>| property.name.value@ != name)
}

/// Whether no two of `properties` share a name.
pub open spec fn distinct_names<'src>(properties: Seq<Property<'src>>) -> bool {
    forall|i: int, j: int|
        0 <= i < j < properties.len() ==> #[trigger] properties[i].name.value@
            != #[trigger] properties[j].name.value@
}

/// Whether the spans of the values, properties and children of `node`, and
/// its own span, lie in `text`, and no two of its properties share a name.
pub open spec fn node_parts_within<'src>(node: Node<'src>, text: Seq<char>) -> bool {
    &&& span_within(node.span, text)
    &&& distinct_names(node.properties@)
    &&& forall|i: int|
        0 <= i < node.arguments@.len() ==> #[trigger] span_within(node.arguments@[i].span, text)
    &&& forall|i: int|
        0 <= i < node.properties@.len() ==> #[trigger] span_within(node.properties@[i].span, text)
    &&& node.children matches Some(children) ==> span_within(children.span, text)
}

impl<'src> Entry<'src> {
    /// Whether the spans of the entry lie in `text`.
    spec fn within(self, text: Seq<char>) -> bool {
        match self {
            Entry::Argument(value) => span_within(value.span, text),
            Entry::Property(name, value) => span_within(name.span, text) && span_within(
                value.span,
                text,
            ),
        }
    }

    /// Whether the value of the entry, and the name of a property, are what
    /// their tokens in `text` read as.
    spec fn is_read(self, dialect: Dialect, text: Seq<char>) -> bool {
        match self {
            Entry::Argument(value) => value_read(dialect, text, value),
            Entry::Property(name, value) => name_read_at(dialect, text, name.span, name.value@)
                && value_read(dialect, text, value),
        }
    }

    /// Whether the spans of the entry lie between `low` and `high`.
    spec fn between(self, low: int, high: int) -> bool {
        match self {
            Entry::Argument(value) => span_between(value.span, low, high),
            Entry::Property(name, value) => span_between(name.span, low, high) && span_between(
                value.span,
                low,
                high,
            ),
        }
    }

    /// Attaches the entry to `node`, dropping any earlier property that shares
    /// the same name.
    fn push_into(
        self,
        node: &mut Node<'src>,
        Ghost(text): Ghost<Seq<char>>,
        Ghost(low): Ghost<int>,
        Ghost(high): Ghost<int>,
        Ghost(dialect): Ghost<Dialect>,
        Ghost(strict): Ghost<bool>,
    )
        requires
            text_len(text) <= usize::MAX,
            self.within(text),
            node_parts_within(*old(node), text),
            self.between(low, high),
            entries_between(*old(node), low, high),
            strict ==> self.is_read(dialect, text) && entries_read(
                *old(node),
                dialect,
                text,
            ),
        ensures
            strict ==> entries_read(*final(node), dialect, text),
            entries_between(*final(node), low, high),
            final(node).name == old(node).name,
            final(node).type_annotation == old(node).type_annotation,
            final(node).span == old(node).span,
            final(node).children == old(node).children,
            node_parts_within(*final(node), text),
            match self {
                Entry::Argument(value) => final(node).arguments@ == old(node).arguments@.push(
                    value,
                ) && final(node).properties@ == old(node).properties@,
                Entry::Property(name, value) => final(node).arguments@ == old(node).arguments@
                    && final(node).properties@.len() >= 1 && final(node).properties@.drop_last()
                    == other_properties(old(node).properties@, name.value@)
                    && final(node).properties@.last().name == name
                    && final(node).properties@.last().value == value
                    && final(node).properties@.last().span == name.span.joined(value.span),
            },
    {
        match self {
            Entry::Argument(value) => node.arguments.push(value),
            Entry::Property(name, value) => {
                let ghost before = node.properties@;
                let key = cow_str(&name.value);
                let mut index: usize = 0;
                let ghost mut seen: int = 0;
                while index < node.properties.len()
                    invariant
                        0 <= seen <= before.len(),
                        index <= node.properties@.len(),
                        key@ == name.value@,
                        node.properties@ == other_properties(before.take(seen), key@) + before.skip(
                            seen,
                        ),
                        index == other_properties(before.take(seen), key@).len(),
                        forall|i: int|
                            0 <= i < before.len() ==> #[trigger] span_within(before[i].span, text),
                        text_len(text) <= usize::MAX,
                        before == old(node).properties@,
                        node.arguments == old(node).arguments,
                        node.name == old(node).name,
                        node.type_annotation == old(node).type_annotation,
                        node.span == old(node).span,
                        node.children == old(node).children,
                    decreases node.properties@.len() - index,
                {
                    proof {
                        reveal_with_fuel(Seq::filter, 1);
                        assert(before.take(seen + 1).drop_last() =~= before.take(seen));
                        assert(node.properties@[index as int] == before[seen]);
                    }
                    if same_text(cow_str(&node.properties[index].name.value), key) {
                        node.properties.remove(index);
                        proof {
                            assert(node.properties@ =~= other_properties(before.take(seen + 1), key@)
                                + before.skip(seen + 1));
                        }
                    } else {
                        index += 1;
                        proof {
                            assert(node.properties@ =~= other_properties(before.take(seen + 1), key@)
                                + before.skip(seen + 1));
                        }
                    }
                    proof {
                        seen = seen + 1;
                    }
                }
                proof {
                    assert(before.take(seen) =~= before);
                    assert(before.skip(seen) =~= Seq::<Property<'src>>::empty());
                    assert(node.properties@ =~= other_properties(before, key@));
                    lemma_filter_within(before, key@, text);
                    lemma_filter_distinct(before, key@);
                    assert forall|i: int| 0 <= i < node.properties@.len() implies span_between(
                        #[trigger] node.properties@[i].span,
                        low,
                        high,
                    ) by {
                        let k = choose|k: int|
                            0 <= k < before.len() && before[k] == other_properties(before, key@)[i];
                        assert(span_between(before[k].span, low, high));
                    }
                    if strict {
                        assert forall|i: int| 0 <= i < node.properties@.len() implies name_read_at(
                            dialect,
                            text,
                            (#[trigger] node.properties@[i]).name.span,
                            node.properties@[i].name.value@,
                        ) by {
                            let k = choose|k: int|
                                0 <= k < before.len() && before[k] == other_properties(before, key@)[i];
                            assert(before[k] == old(node).properties@[k]);
                        }
                    }
                }
                let span = name.span.join(value.span);
                proof {
                    lemma_join_within(name.span, value.span, text);
                }
                node.properties.push(Property { name, value, span });
            },
        }
    }
}

/// Dropping the properties named `name` from properties with distinct names
/// leaves properties with distinct names, none of them `name`, each taken
/// from the given list.
proof fn lemma_filter_distinct<'src>(properties: Seq<Property<'src>>, name: Seq<char>)
    requires
        distinct_names(properties),
    ensures
        distinct_names(other_properties(properties, name)),
        forall|i: int|
            0 <= i < other_properties(properties, name).len() ==> (#[trigger] other_properties(
                properties,
                name,
            )[i]).name.value@ != name,
        forall|i: int|
            0 <= i < other_properties(properties, name).len() ==> exists|k: int|
                0 <= k < properties.len() && properties[k] == #[trigger] other_properties(
                    properties,
                    name,
                )[i],
    decreases properties.len(),
{
    reveal_with_fuel(Seq::filter, 1);
    if properties.len() > 0 {
        let rest = properties.drop_last();
        lemma_filter_distinct(rest, name);
        let kept = other_properties(rest, name);
        let all = other_properties(properties, name);
        let last = properties.last();
        assert forall|i: int| 0 <= i < all.len() implies exists|k: int|
            0 <= k < properties.len() && properties[k] == #[trigger] all[i] by {
            if i < kept.len() {
                let k = choose|k: int| 0 <= k < rest.len() && rest[k] == kept[i];
                assert(properties[k] == all[i]);
            } else {
                assert(properties[properties.len() - 1] == all[i]);
            }
        }
        assert forall|i: int, j: int| 0 <= i < j < all.len() implies #[trigger] all[i].name.value@
            != #[trigger] all[j].name.value@ by {
            if j >= kept.len() {
                let k = choose|k: int| 0 <= k < rest.len() && rest[k] == kept[i];
                assert(properties[k] == all[i]);
                assert(all[j] == properties[properties.len() - 1]);
            } else {
                assert(all[i] == kept[i]);
                assert(all[j] == kept[j]);
            }
        }
    }
}

/// Keeping only some properties keeps their spans in the text.
proof fn lemma_filter_within<'src>(properties: Seq<Property<'src>>, name: Seq<char>, text: Seq<char>)
    requires
        forall|i: int| 0 <= i < properties.len() ==> #[trigger] span_within(properties[i].span, text),
    ensures
        forall|i: int|
            0 <= i < other_properties(properties, name).len() ==> #[trigger] span_within(
                other_properties(properties, name)[i].span,
                text,
            ),
    decreases properties.len(),
{
    reveal_with_fuel(Seq::filter, 1);
    if properties.len() > 0 {
        lemma_filter_within(properties.drop_last(), name, text);
    }
}

/// A parenthesised type annotation that precedes a node name or value.
struct TypePrefix<'src> {
    /// Range covering both parentheses so the annotated item can extend its own
    /// span over it.
    span: Span,
    /// The type name found between the parentheses, with its own span.
    name: Spanned<Cow<'src, str>>,
}

/// Builds a value from a literal and an optional type prefix, widening the span
/// to include the prefix when one is present.
fn scalar<'src>(
    type_prefix: Option<TypePrefix<'src>>,
    literal: Literal<'src>,
    span: Span,
    Ghost(text): Ghost<Seq<char>>,
    Ghost(dialect): Ghost<Dialect>,
) -> (value: Value<'src>)
    requires
        text_len(text) <= usize::MAX,
        span_within(span, text),
        type_prefix matches Some(prefix) ==> span_within(prefix.span, text),
    ensures
        literal_read_at(dialect, text, span, literal) && (type_prefix matches Some(prefix)
            ==> prefix.span.stop_at() <= span.start_at() && name_read_at(
            dialect,
            text,
            prefix.name.span,
            prefix.name.value@,
        )) ==> value_read(dialect, text, value),
        span_within(value.span, text),
        value.literal == literal,
        type_prefix matches Some(prefix) ==> value.span.start_at() == min(
            prefix.span.start_at() as int,
            span.start_at() as int,
        ) && value.span.stop_at() == max(prefix.span.stop_at() as int, span.stop_at() as int),
        type_prefix is None ==> value.span == span,
{
    let value = match type_prefix {
        Some(prefix) => {
            proof {
                lemma_join_within(prefix.span, span, text);
            }
            Value { type_annotation: Some(prefix.name), literal, span: prefix.span.join(span) }
        },
        None => Value { type_annotation: None, literal, span },
    };
    proof {
        if literal_read_at(dialect, text, span, literal) {
            let (i, j) = choose|i: int, j: int|
                0 <= i <= j <= text.len() && byte_at(text, i) == span.start_at() && byte_at(text, j)
                    == span.stop_at() && #[trigger] literal_read(dialect, text, i, j, literal);
            assert(literal_read(dialect, text, i, j, value.literal));
        }
    }
    value
}

/// Whether `token` is a well-formed token of `text`: inside it, empty exactly
/// when it marks the end, which sits at the end of the text.
pub open spec fn token_within<'src>(token: Token<'src>, text: Seq<char>) -> bool {
    &&& span_within(token.span, text)
    &&& token.kind is Eof ==> token.span.size() == 0 && token.span.start_at() == text_len(text)
    &&& !(token.kind is Eof) ==> token.span.size() > 0
}

/// Whether the tokens of `tokens` are in source order and do not overlap.
pub open spec fn tokens_ordered<'src>(tokens: Seq<Token<'src>>) -> bool {
    forall|i: int, j: int|
        0 <= i < j < tokens.len() ==> #[trigger] tokens[i].span.stop_at()
            <= #[trigger] tokens[j].span.start_at()
}

/// A token that is not the end marker sits at least `k` bytes after the first
/// of `k + 1` ordered tokens.
proof fn lemma_token_count<'src>(tokens: Seq<Token<'src>>, text: Seq<char>, k: int)
    requires
        0 <= k < tokens.len(),
        tokens_ordered(tokens),
        forall|i: int| 0 <= i < tokens.len() ==> #[trigger] token_within(tokens[i], text),
        !(tokens[k].kind is Eof),
    ensures
        tokens[k].span.start_at() >= tokens[0].span.start_at() + k,
        k < text_len(text),
    decreases k,
{
    assert(token_within(tokens[k], text));
    if k > 0 {
        assert(token_within(tokens[k - 1], text));
        if tokens[k - 1].kind is Eof {
            assert(tokens[k - 1].span.stop_at() <= tokens[k].span.start_at());
        } else {
            lemma_token_count(tokens, text, k - 1);
            assert(tokens[k - 1].span.stop_at() <= tokens[k].span.start_at());
        }
    } else {
    }
}

/// Recursive descent parser that streams tokens from the lexer with a single
/// token of state and an on demand lookahead queue.
struct Parser<'src> {
    /// Token source that also owns the dialect, the leniency flag, and any lexer
    /// errors.
    lexer: Lexer<'src>,
    /// Token being examined, which is always valid because the lexer is primed
    /// in `new`.
    current: Token<'src>,
    /// Tokens already pulled from the lexer for lookahead but not yet consumed.
    pending: VecDeque<Token<'src>>,
    /// Diagnostics collected in lenient mode, sorted by offset before they are
    /// returned.
    errors: Vec<Error>,
    /// The tag of the token consumed last, if any.
    previous: Ghost<Option<Tag>>,
    /// The tags of all tokens consumed so far, in order.
    history: Ghost<Seq<Tag>>,
}

impl<'src> Parser<'src> {
    /// The source text as characters.
    spec fn text(self) -> Seq<char> {
        self.lexer.text()
    }

    /// The current token followed by the lookahead queue.
    spec fn tokens(self) -> Seq<Token<'src>> {
        seq![self.current] + self.pending@
    }

    spec fn wf(self) -> bool {
        &&& self.lexer.wf()
        &&& token_within(self.current, self.lexer.cursor.source@)
        &&& forall|i: int|
            0 <= i < self.tokens().len() ==> #[trigger] token_within(
                self.tokens()[i],
                self.lexer.cursor.source@,
            )
        &&& tokens_ordered(self.tokens())
        &&& self.tokens().last().span.stop_at() <= self.lexer.cursor.position
        &&& errors_within(self.errors@, self.lexer.cursor.source@)
        &&& self.clean() ==> forall|i: int|
            0 <= i < self.tokens().len() ==> #[trigger] token_read_at(
                self.lexer.cursor.dialect,
                self.lexer.cursor.source@,
                self.tokens()[i],
            )
    }

    /// Where the current token starts.
    spec fn offset(self) -> int {
        self.current.span.start_at() as int
    }

    /// A measure that every consumed token lowers.
    spec fn rank(self) -> int {
        2 * (text_len(self.text()) - self.current.span.start_at()) + if self.current.kind is Eof {
            0int
        } else {
            1int
        }
    }

    /// Whether the parse so far reads as a strict parse does: it is strict,
    /// or it is lenient and neither the parser nor the lexer has recorded an
    /// error.
    spec fn clean(self) -> bool {
        !self.lexer.lenient || (self.errors@.len() == 0 && self.lexer.errors@.len() == 0)
    }

    /// `self` continues the parse `before` was in without going backwards or
    /// losing a recorded error.
    spec fn follows(self, before: Self) -> bool {
        &&& self.wf()
        &&& self.lexer.cursor.same_text(before.lexer.cursor)
        &&& self.lexer.lenient == before.lexer.lenient
        &&& before.errors@.len() <= self.errors@.len()
        &&& before.lexer.errors@.len() <= self.lexer.errors@.len()
        &&& self.rank() <= before.rank()
        &&& self.rank() >= 0
        &&& self.offset() >= before.offset()
    }

    /// Whether `self` either consumed input since `before` or still looks at a
    /// token with the same tag.
    spec fn moved_or_same(self, before: Self) -> bool {
        self.rank() < before.rank() || tag_of(self.current.kind) == tag_of(before.current.kind)
    }

    /// `self` continues `before`, and looks at a token of the same kind unless
    /// it consumed input.
    spec fn stepped(self, before: Self) -> bool {
        self.follows(before) && self.moved_or_same(before)
    }

    /// The current token of a well-formed parser lies in the text.
    proof fn lemma_current_within(self)
        requires
            self.wf(),
        ensures
            token_within(self.current, self.text()),
            self.rank() >= 0,
    {
        assert(self.tokens()[0] == self.current);
    }

    /// Builds a parser primed with the first token, failing if that token cannot
    /// be lexed.
    fn new(lexer: Lexer<'src>) -> (result: Result<Self, Error>)
        requires
            lexer.wf(),
        ensures
            result matches Ok(parser) ==> parser.wf() && parser.text() == lexer.text()
                && parser.lexer.lenient == lexer.lenient && parser.errors@.len() == 0
                && parser.lexer.cursor.dialect == lexer.cursor.dialect,
            result matches Err(error) ==> syntax_error_in(error, lexer.text()),
    {
        let mut lexer = lexer;
        let current = lexer.next_token()?;
        let parser = Self { lexer, current, pending: VecDeque::new(), errors: Vec::new(), previous: Ghost(None), history: Ghost(Seq::empty()) };
        proof {
            assert(parser.tokens() =~= seq![current]);
        }
        Ok(parser)
    }

    /// Parses every top level node and returns a document spanning the whole
    /// source.
    fn parse_document(&mut self) -> (result: Result<Document<'src>, Error>)
        requires
            old(self).wf(),
        ensures
            final(self).stepped(*old(self)),
            failure_within(result, old(self).text()),
            result matches Ok(document) ==> document.span.start_at() == 0
                && document.span.size() == text_len(old(self).text())
                && forall|i: int|
                0 <= i < document.nodes@.len() ==> #[trigger] tree_within(
                    document.nodes@[i],
                    old(self).text(),
                ),
            result matches Ok(document) ==> all_nested_within(document.nodes@, depth_limit()),
            result matches Ok(document) ==> document_in_order(document),
            result matches Ok(document) ==> final(self).clean() ==> all_trees_read(
                document.nodes@,
                old(self).lexer.cursor.dialect,
                old(self).text(),
            ),
    {
        let nodes = self.parse_nodes(0, false)?;
        Ok(Document { nodes, span: Span::new(0, self.lexer.source_len()) })
    }

    /// Records `error` and continues in lenient mode, or returns it in strict
    /// mode.
    fn fail(&mut self, error: Error) -> (result: Result<(), Error>)
        requires
            old(self).wf(),
            syntax_error_in(error, old(self).text()),
        ensures
            final(self).wf(),
            final(self).stepped(*old(self)),
            final(self).lexer == old(self).lexer,
            final(self).current == old(self).current,
            final(self).pending == old(self).pending,
            old(self).lexer.lenient ==> result is Ok && final(self).errors@ == old(self).errors@.push(
                error,
            ),
            !old(self).lexer.lenient ==> result == Err::<(), Error>(error),
    {
        proof {
            self.lemma_current_within();
        }
        if !self.lexer.is_lenient() {
            return Err(error);
        }
        self.errors.push(error);
        Ok(())
    }

    /// Skips tokens until the next node boundary at the current nesting level,
    /// or the end of input.
    fn recover(&mut self) -> (result: Result<(), Error>)
        requires
            old(self).wf(),
        ensures
            final(self).stepped(*old(self)),
            failure_within(result, old(self).text()),
            result is Ok && !(tag_of(old(self).current.kind) is Eof || tag_of(old(self).current.kind) is Newline
                || tag_of(old(self).current.kind) is Semicolon || tag_of(old(self).current.kind)
                is CloseBrace) ==> final(self).rank() < old(self).rank(),
            old(self).history@.len() <= final(self).history@.len(),
            final(self).history@.take(old(self).history@.len() as int) == old(self).history@,
            forall|i: int|
                old(self).history@.len() <= i <= final(self).history@.len() ==> brace_depth(
                    #[trigger] final(self).history@.subrange(old(self).history@.len() as int, i),
                ) >= 0,
            result is Ok ==> tag_of(final(self).current.kind) == Tag::Eof || (terminator(
                tag_of(final(self).current.kind),
            ) && brace_depth(
                final(self).history@.skip(old(self).history@.len() as int),
            ) == 0),
            result is Ok && (tag_of(old(self).current.kind) == Tag::Eof || terminator(
                tag_of(old(self).current.kind),
            )) ==> *final(self) == *old(self),
    {
        proof {
            self.lemma_current_within();
        }
        let mut depth: usize = 0;
        let mut first = true;
        proof {
            assert(self.history@.take(self.history@.len() as int) =~= self.history@);
            assert(self.history@.subrange(self.history@.len() as int, self.history@.len() as int)
                =~= Seq::<Tag>::empty());
        }
        loop
            invariant
                old(self).wf(),
                self.stepped(*old(self)),
                first ==> *self == *old(self),
                first ==> depth == 0,
                !first ==> self.rank() < old(self).rank(),
                !first ==> !(tag_of(old(self).current.kind) == Tag::Eof || terminator(
                    tag_of(old(self).current.kind),
                )),
                2 * depth + self.rank() <= old(self).rank(),
                old(self).history@.len() <= self.history@.len(),
                self.history@.take(old(self).history@.len() as int) == old(self).history@,
                depth == brace_depth(self.history@.skip(old(self).history@.len() as int)),
                forall|i: int|
                    old(self).history@.len() <= i <= self.history@.len() ==> brace_depth(
                        #[trigger] self.history@.subrange(old(self).history@.len() as int, i),
                    ) >= 0,
            decreases self.rank(),
        {
            let tag = self.current.kind.tag();
            let terminator = tag == Tag::Newline || tag == Tag::Semicolon || tag == Tag::CloseBrace;
            if tag == Tag::Eof || (depth == 0 && terminator) {
                return Ok(());
            }
            let ghost before = self.history@;
            if tag == Tag::OpenBrace {
                proof {
                    self.lemma_current_within();
                }
                depth = depth + 1;
            } else if tag == Tag::CloseBrace {
                depth = depth - 1;
            }
            self.advance()?;
            proof {
                let n = old(self).history@.len() as int;
                let after = self.history@;
                assert(after.take(n) =~= before.take(n));
                assert(after.skip(n).drop_last() =~= before.skip(n));
                assert forall|i: int| n <= i <= after.len() implies brace_depth(
                    #[trigger] after.subrange(n, i),
                ) >= 0 by {
                    if i < after.len() {
                        assert(after.subrange(n, i) =~= before.subrange(n, i));
                    } else {
                        assert(after.subrange(n, i) =~= after.skip(n));
                    }
                }
            }
            first = false;
        }
    }

    /// Reports whether the current token has the given tag.
    fn at(&self, tag: Tag) -> (found: bool)
        ensures
            found == (tag_of(self.current.kind) == tag),
    {
        self.current.kind.tag() == tag
    }

    /// Returns the span of the current token.
    fn span(&self) -> (span: Span)
        ensures
            span == self.current.span,
    {
        self.current.span
    }

    /// Builds a syntax error located at the current token.
    fn error(&self, message: &str) -> (error: Error)
        requires
            self.wf(),
        ensures
            syntax_error_in(error, self.text()),
    {
        proof {
            self.lemma_current_within();
        }
        Error::syntax(self.span(), message)
    }

    /// Returns the tag of the token `index` positions ahead, filling the
    /// lookahead queue as needed.
    fn tag_at(&mut self, index: usize) -> (result: Result<Tag, Error>)
        requires
            old(self).wf(),
        ensures
            final(self).stepped(*old(self)),
            final(self).current == old(self).current,
            final(self).errors == old(self).errors,
            failure_within(result, old(self).text()),
            result matches Ok(tag) ==> index < final(self).tokens().len() && tag == tag_of(
                final(self).tokens()[index as int].kind,
            ),
            old(self).tokens().len() <= final(self).tokens().len(),
            final(self).tokens().take(old(self).tokens().len() as int) == old(self).tokens(),
            final(self).previous == old(self).previous,
    {
        if index == 0 {
            return Ok(self.current.kind.tag());
        }
        let pending_index = index - 1;
        while self.pending.len() <= pending_index
            invariant
                old(self).wf(),
                self.follows(*old(self)),
                self.current == old(self).current,
                self.errors == old(self).errors,
                old(self).tokens().len() <= self.tokens().len(),
                self.tokens().take(old(self).tokens().len() as int) == old(self).tokens(),
                self.previous == old(self).previous,
            decreases pending_index + 1 - self.pending@.len(),
        {
            let ghost before = *self;
            let token = match self.lexer.next_token() {
                Ok(token) => token,
                Err(error) => {
                    proof {
                        crate::text::lemma_text_len_prefix(
                            self.text(),
                            before.lexer.cursor.at(),
                            self.lexer.cursor.at(),
                        );
                    }
                    return Err(error);
                },
            };
            proof {
                crate::text::lemma_text_len_prefix(
                    self.text(),
                    before.lexer.cursor.at(),
                    before.lexer.cursor.at(),
                );
            }
            self.pending.push_back(token);
            proof {
                let tokens = self.tokens();
                assert(tokens =~= before.tokens().push(token));
                assert(tokens.take(old(self).tokens().len() as int) =~= before.tokens().take(
                    old(self).tokens().len() as int,
                ));
                assert forall|i: int, j: int|
                    0 <= i < j < tokens.len() implies #[trigger] tokens[i].span.stop_at()
                    <= #[trigger] tokens[j].span.start_at() by {
                    assert(tokens[i] == before.tokens()[i]);
                    if j == tokens.len() - 1 {
                        assert(tokens[j] == token);
                        let last = before.tokens().len() - 1;
                        if i < last {
                            assert(before.tokens()[i].span.stop_at() <= before.tokens()[
                                last
                            ].span.start_at());
                        }
                    } else {
                        assert(tokens[j] == before.tokens()[j]);
                    }
                }
                assert forall|i: int| 0 <= i < tokens.len() implies #[trigger] token_within(
                    tokens[i],
                    self.lexer.cursor.source@,
                ) by {
                    if i < tokens.len() - 1 {
                        assert(tokens[i] == before.tokens()[i]);
                    }
                }
            }
        }
        let tag = self.pending[pending_index].kind.tag();
        proof {
            assert(self.tokens()[index as int] == self.pending@[pending_index as int]);
        }
        Ok(tag)
    }

    /// Moves to the next token, draining the lookahead queue before asking the
    /// lexer, and returns the token that was current.
    fn advance(&mut self) -> (result: Result<Token<'src>, Error>)
        requires
            old(self).wf(),
        ensures
            final(self).stepped(*old(self)),
            final(self).errors == old(self).errors,
            failure_within(result, old(self).text()),
            result matches Ok(token) ==> token == old(self).current && span_within(
                token.span,
                old(self).text(),
            ) && token.span.stop_at() <= final(self).offset(),
            result is Ok && !(old(self).current.kind is Eof) ==> final(self).rank() + 2 <= old(self).rank(),
            result is Err ==> final(self).current == old(self).current,
            result matches Ok(token) ==> final(self).previous@ == Some(tag_of(token.kind)),
            result matches Ok(token) ==> final(self).history@ == old(self).history@.push(
                tag_of(token.kind),
            ),
            result is Err ==> final(self).history == old(self).history,
    {
        let ghost before = *self;
        proof {
            self.lemma_current_within();
        }
        let next = match self.pending.pop_front() {
            Some(token) => token,
            None => {
                let token = match self.lexer.next_token() {
                    Ok(token) => token,
                    Err(error) => {
                        proof {
                            crate::text::lemma_text_len_prefix(
                                self.text(),
                                before.lexer.cursor.at(),
                                self.lexer.cursor.at(),
                            );
                        }
                        return Err(error);
                    },
                };
                proof {
                    crate::text::lemma_text_len_prefix(
                        self.text(),
                        before.lexer.cursor.at(),
                        before.lexer.cursor.at(),
                    );
                }
                token
            },
        };
        let mut taken = next;
        core::mem::swap(&mut self.current, &mut taken);
        self.previous = Ghost(Some(tag_of(taken.kind)));
        self.history = Ghost(self.history@.push(tag_of(taken.kind)));
        proof {
            let tokens = self.tokens();
            let old_tokens = before.tokens();
            if before.pending@.len() > 0 {
                assert(tokens =~= old_tokens.drop_first());
                assert(old_tokens[0] == before.current);
                assert(old_tokens[1] == self.current);
                assert(token_within(old_tokens[1], self.lexer.cursor.source@));
                assert(old_tokens[0].span.stop_at() <= old_tokens[1].span.start_at());
                assert(token_within(old_tokens[0], self.lexer.cursor.source@));
                assert forall|i: int, j: int|
                    0 <= i < j < tokens.len() implies #[trigger] tokens[i].span.stop_at()
                    <= #[trigger] tokens[j].span.start_at() by {
                    assert(tokens[i] == old_tokens[i + 1]);
                    assert(tokens[j] == old_tokens[j + 1]);
                }
                assert forall|i: int| 0 <= i < tokens.len() implies #[trigger] token_within(
                    tokens[i],
                    self.lexer.cursor.source@,
                ) by {
                    assert(tokens[i] == old_tokens[i + 1]);
                }
            } else {
                assert(tokens =~= seq![self.current]);
                assert(old_tokens =~= seq![before.current]);
                assert(token_within(old_tokens[0], self.lexer.cursor.source@));
            }
            self.lemma_current_within();
        }
        Ok(taken)
    }

    /// Consumes the current token if it has the given tag, otherwise fails with
    /// `message`.
    fn expect(&mut self, tag: Tag, message: &str) -> (result: Result<Token<'src>, Error>)
        requires
            old(self).wf(),
        ensures
            final(self).stepped(*old(self)),
            final(self).errors == old(self).errors,
            failure_within(result, old(self).text()),
            result matches Ok(token) ==> tag_of(token.kind) == tag && span_within(
                token.span,
                old(self).text(),
            ) && span_between(token.span, old(self).offset(), final(self).offset()),
            result is Ok && !(tag is Eof) ==> final(self).rank() < old(self).rank(),
    {
        if !self.at(tag) {
            return Err(self.error(message));
        }
        self.advance()
    }

    /// Reports whether the current token can serve as a node, property, or type
    /// name.
    fn at_name(&self) -> (found: bool)
        ensures
            found == (tag_of(self.current.kind) is String || tag_of(self.current.kind) is Identifier),
    {
        self.at(Tag::String) || self.at(Tag::Identifier)
    }

    /// Consumes a string or identifier token as a name, failing with `message`
    /// otherwise.
    fn take_name(&mut self, message: &str) -> (result: Result<Spanned<Cow<'src, str>>, Error>)
        requires
            old(self).wf(),
        ensures
            final(self).stepped(*old(self)),
            final(self).errors == old(self).errors,
            failure_within(result, old(self).text()),
            result matches Ok(name) ==> span_within(name.span, old(self).text()) && final(self).rank() < old(self).rank()
                && span_between(name.span, old(self).offset(), final(self).offset()),
            result matches Ok(name) ==> final(self).clean() ==> name_read_at(
                old(self).lexer.cursor.dialect,
                old(self).text(),
                name.span,
                name.value@,
            ),
            result is Ok ==> final(self).previous@ != Some(Tag::Space),
    {
        if !self.at_name() {
            return Err(self.error(message));
        }
        let ghost before = *self;
        let token = self.advance()?;
        proof {
            if before.clean() {
                assert(before.tokens()[0] == before.current);
                assert(token_read_at(before.lexer.cursor.dialect, before.text(), token));
                let (i, j) = choose|i: int, j: int|
                    0 <= i <= j <= before.text().len() && byte_at(before.text(), i)
                        == token.span.start_at() && byte_at(before.text(), j) == token.span.stop_at()
                        && #[trigger] token_read(before.lexer.cursor.dialect, before.text(), i, j, token.kind);
                if token.kind is String {
                    assert(name_read(
                        before.lexer.cursor.dialect,
                        before.text(),
                        i,
                        j,
                        token.kind->String_0@,
                    ));
                }
                if token.kind is Identifier {
                    assert(name_read(
                        before.lexer.cursor.dialect,
                        before.text(),
                        i,
                        j,
                        token.kind->Identifier_0@,
                    ));
                }
            }
        }
        match token.kind {
            TokenKind::String(text) => Ok(Spanned::new(text, token.span)),
            TokenKind::Identifier(text) => Ok(Spanned::new(text, token.span)),
            _ => Err(Error::syntax(token.span, message)),
        }
    }

    /// Consumes consecutive space tokens and reports whether any were skipped.
    fn skip_spaces(&mut self) -> (result: Result<bool, Error>)
        requires
            old(self).wf(),
        ensures
            final(self).stepped(*old(self)),
            final(self).errors == old(self).errors,
            failure_within(result, old(self).text()),
            result matches Ok(skipped) ==> !(tag_of(final(self).current.kind) is Space) && (skipped
                ==> final(self).rank() < old(self).rank()) && (!skipped ==> final(self).current
                == old(self).current && final(self).previous == old(self).previous),
    {
        let mut skipped = false;
        while self.at(Tag::Space)
            invariant
                old(self).wf(),
                self.stepped(*old(self)),
                self.errors == old(self).errors,
                skipped ==> self.rank() < old(self).rank(),
                !skipped ==> self.current == old(self).current && self.previous == old(self).previous,
            decreases self.rank(),
        {
            self.advance()?;
            skipped = true;
        }
        Ok(skipped)
    }

    /// Consumes any run of space and newline tokens.
    fn skip_line_space(&mut self) -> (result: Result<(), Error>)
        requires
            old(self).wf(),
        ensures
            final(self).stepped(*old(self)),
            final(self).errors == old(self).errors,
            failure_within(result, old(self).text()),
            result is Ok ==> !(tag_of(final(self).current.kind) is Space) && !(tag_of(
                final(self).current.kind,
            ) is Newline),
    {
        while self.at(Tag::Space) || self.at(Tag::Newline)
            invariant
                old(self).wf(),
                self.stepped(*old(self)),
                self.errors == old(self).errors,
            decreases self.rank(),
        {
            self.advance()?;
        }
        Ok(())
    }

    /// Consumes a `/-` token and the whitespace after it, reporting any stacked
    /// `/-` that follows.
    fn skip_slashdash(&mut self) -> (result: Result<(), Error>)
        requires
            old(self).wf(),
        ensures
            final(self).stepped(*old(self)),
            failure_within(result, old(self).text()),
            result is Ok ==> final(self).rank() < old(self).rank(),
    {
        self.expect(Tag::Slashdash, "expected '/-'")?;
        self.skip_line_space()?;
        while self.at(Tag::Slashdash)
            invariant
                old(self).wf(),
                self.stepped(*old(self)),
                self.rank() < old(self).rank(),
            decreases self.rank(),
        {
            let error = self.error("unexpected '/-'");
            self.fail(error)?;
            self.advance()?;
            self.skip_line_space()?;
        }
        Ok(())
    }

    /// Looks past the current `/-` and whitespace to tell whether it hides a
    /// children block.
    fn slashdash_hides_children(&mut self) -> (result: Result<bool, Error>)
        requires
            old(self).wf(),
        ensures
            final(self).stepped(*old(self)),
            final(self).current == old(self).current,
            final(self).errors == old(self).errors,
            failure_within(result, old(self).text()),
            result matches Ok(hides) ==> exists|i: int|
                1 <= i < final(self).tokens().len() && !blank(
                    tag_of(#[trigger] final(self).tokens()[i].kind),
                ) && (forall|j: int| 1 <= j < i ==> blank(tag_of(final(self).tokens()[j].kind)))
                    && hides == (tag_of(final(self).tokens()[i].kind) == Tag::OpenBrace),
    {
        let mut index: usize = 1;
        loop
            invariant
                old(self).wf(),
                self.stepped(*old(self)),
                self.current == old(self).current,
                self.errors == old(self).errors,
                1 <= index <= text_len(self.text()) + 1,
                index <= self.tokens().len(),
                forall|j: int| 1 <= j < index ==> blank(tag_of(self.tokens()[j].kind)),
            decreases text_len(self.text()) + 1 - index,
        {
            let ghost before = self.tokens();
            let tag = self.tag_at(index)?;
            proof {
                assert forall|j: int| 1 <= j < index implies blank(tag_of(self.tokens()[j].kind)) by {
                    assert(self.tokens().take(before.len() as int)[j] == self.tokens()[j]);
                }
            }
            if !(tag == Tag::Space || tag == Tag::Newline) {
                return Ok(tag == Tag::OpenBrace);
            }
            proof {
                lemma_token_count(self.tokens(), self.lexer.cursor.source@, index as int);
            }
            index = index + 1;
        }
    }

    /// Parses nodes until end of input or, when `nested`, the closing brace,
    /// recovering after each failed node in lenient mode.
    fn parse_nodes(&mut self, depth: usize, nested: bool) -> (result: Result<Vec<Node<'src>>, Error>)
        requires
            old(self).wf(),
            depth <= MAX_DEPTH + 1,
        ensures
            final(self).stepped(*old(self)),
            failure_within(result, old(self).text()),
            result matches Ok(nodes) ==> forall|i: int|
                0 <= i < nodes@.len() ==> #[trigger] tree_within(nodes@[i], old(self).text()),
            result matches Ok(nodes) ==> all_nested_within(nodes@, (MAX_DEPTH + 1 - depth) as nat),
            result matches Ok(nodes) ==> nodes_in_order(nodes@) && forall|i: int|
                0 <= i < nodes@.len() ==> span_between(
                    nodes@[i].span,
                    old(self).offset(),
                    final(self).offset(),
                ) && tree_in_order(#[trigger] nodes@[i]),
            result matches Ok(nodes) ==> final(self).clean() ==> all_trees_read(
                nodes@,
                old(self).lexer.cursor.dialect,
                old(self).text(),
            ),
            result is Ok ==> tag_of(final(self).current.kind) == Tag::Eof || (nested && tag_of(
                final(self).current.kind,
            ) == Tag::CloseBrace),
            result is Ok && nested && final(self).clean() ==> tag_of(final(self).current.kind)
                == Tag::CloseBrace,
        decreases MAX_DEPTH + 2 - depth, 3int,
    {
        let mut nodes: Vec<Node<'src>> = Vec::new();
        loop
            invariant
                old(self).wf(),
                self.stepped(*old(self)),
                depth <= MAX_DEPTH + 1,
                forall|i: int|
                    0 <= i < nodes@.len() ==> #[trigger] tree_within(nodes@[i], old(self).text()),
                all_nested_within(nodes@, (MAX_DEPTH + 1 - depth) as nat),
                nodes_in_order(nodes@),
                forall|i: int|
                    0 <= i < nodes@.len() ==> span_between(
                        nodes@[i].span,
                        old(self).offset(),
                        self.offset(),
                    ) && tree_in_order(#[trigger] nodes@[i]),
                self.clean() ==> all_trees_read(
                    nodes@,
                    old(self).lexer.cursor.dialect,
                    old(self).text(),
                ),
            decreases self.rank(),
        {
            self.skip_line_space()?;
            let tag = self.current.kind.tag();
            if tag == Tag::Eof {
                if nested {
                    let error = self.error("unexpected end of input");
                    self.fail(error)?;
                }
                return Ok(nodes);
            }
            if tag == Tag::CloseBrace && nested {
                return Ok(nodes);
            }
            if tag == Tag::CloseBrace || tag == Tag::Semicolon {
                let error = if tag == Tag::Semicolon {
                    self.error("unexpected ';'")
                } else {
                    self.error("unexpected '}'")
                };
                self.fail(error)?;
                self.advance()?;
                continue;
            }
            let ghost before = *self;
            match self.parse_node(depth, nested) {
                Ok(Some(node)) => {
                    nodes.push(node);
                },
                Ok(None) => {},
                Err(error) => {
                    self.fail(error)?;
                    self.recover()?;
                },
            }
        }
    }

    /// Parses one node and returns `None` when it was hidden by a slashdash or
    /// `Err` when `depth` exceeds `MAX_DEPTH`.
    fn parse_node(&mut self, depth: usize, nested: bool) -> (result: Result<Option<Node<'src>>, Error>)
        requires
            old(self).wf(),
            depth <= MAX_DEPTH + 1,
        ensures
            final(self).stepped(*old(self)),
            failure_within(result, old(self).text()),
            result is Ok ==> final(self).rank() < old(self).rank(),
            result matches Ok(Some(node)) ==> tree_within(node, old(self).text())
                && nested_within(node, (MAX_DEPTH + 1 - depth) as nat),
            result matches Ok(Some(node)) ==> span_between(node.span, old(self).offset(), final(self).offset())
                && tree_in_order(node),
            result matches Ok(Some(node)) ==> final(self).clean() ==> tree_read(
                node,
                old(self).lexer.cursor.dialect,
                old(self).text(),
            ),
        decreases MAX_DEPTH + 2 - depth, 2int,
    {
        if depth > MAX_DEPTH {
            return Err(self.error("maximum nesting depth exceeded"));
        }
        if self.at(Tag::Slashdash) {
            self.skip_slashdash()?;
            self.parse_node_inner(depth, nested)?;
            return Ok(None);
        }
        let node = self.parse_node_inner(depth, nested)?;
        Ok(Some(node))
    }

    /// Parses a node from its optional type annotation through its terminator,
    /// then widens its span over every argument, property, and children
    /// block.
    #[verifier::rlimit(30)]
    fn parse_node_inner(&mut self, depth: usize, nested: bool) -> (result: Result<Node<'src>, Error>)
        requires
            old(self).wf(),
            depth <= MAX_DEPTH,
        ensures
            final(self).stepped(*old(self)),
            failure_within(result, old(self).text()),
            result matches Ok(node) ==> tree_within(node, old(self).text()) && final(self).rank()
                < old(self).rank() && nested_within(node, (MAX_DEPTH + 1 - depth) as nat),
            result matches Ok(node) ==> span_between(node.span, old(self).offset(), final(self).offset())
                && tree_in_order(node),
            result matches Ok(node) ==> final(self).clean() ==> tree_read(
                node,
                old(self).lexer.cursor.dialect,
                old(self).text(),
            ),
            result matches Ok(node) ==> node_span_joined(node, old(self).offset()),
        decreases MAX_DEPTH + 2 - depth, 1int,
    {
        let ghost text = self.text();
        let prefix = self.parse_type_prefix()?;
        let name = self.take_name("expected node name")?;
        let ghost prefix_span = match &prefix {
            Some(annotation) => annotation.span,
            None => name.span,
        };
        let (span, type_annotation) = match prefix {
            Some(annotation) => {
                proof {
                    lemma_join_within(annotation.span, name.span, text);
                }
                (annotation.span.join(name.span), Some(annotation.name))
            },
            None => (name.span, None),
        };
        let ghost head = span;
        let mut node = Node {
            name,
            type_annotation,
            arguments: Vec::new(),
            properties: Vec::new(),
            children: None,
            span,
        };
        let ghost start = node.span.start_at() as int;
        if let Err(error) = self.parse_entries(&mut node) {
            self.fail(error)?;
            self.recover()?;
        }
        let mut seen_block = false;
        loop
            invariant
                head == (if node.type_annotation is Some {
                    prefix_span.joined(node.name.span)
                } else {
                    node.name.span
                }),
                node.type_annotation is Some ==> prefix_span.start_at() == old(self).offset(),
                node.span == head,
                old(self).wf(),
                self.stepped(*old(self)),
                self.rank() < old(self).rank(),
                text == old(self).text(),
                depth <= MAX_DEPTH,
                node_parts_within(node, text),
                node.children matches Some(children) ==> forall|i: int|
                    0 <= i < children.nodes@.len() ==> #[trigger] tree_within(
                        children.nodes@[i],
                        text,
                    ),
                node.children matches Some(children) ==> all_nested_within(
                    children.nodes@,
                    (MAX_DEPTH - depth) as nat,
                ),
                start >= old(self).offset(),
                node.span.start_at() == start,
                node.span.stop_at() <= self.offset(),
                node.span.covers(node.name.span),
                entries_between(node, start, self.offset()),
                node.children matches Some(children) ==> block_in_order(children, start, self.offset()),
                self.clean() ==> name_read_at(
                    old(self).lexer.cursor.dialect,
                    text,
                    node.name.span,
                    node.name.value@,
                ) && (node.type_annotation matches Some(annotation) ==> name_read_at(
                    old(self).lexer.cursor.dialect,
                    text,
                    annotation.span,
                    annotation.value@,
                )) && entries_read(node, old(self).lexer.cursor.dialect, text) && (
                node.children matches Some(children) ==> all_trees_read(
                    children.nodes@,
                    old(self).lexer.cursor.dialect,
                    text,
                )),
            decreases self.rank(),
        {
            self.skip_spaces()?;
            let hidden = if self.at(Tag::Slashdash) {
                self.slashdash_hides_children()?
            } else {
                false
            };
            if !hidden && !self.at(Tag::OpenBrace) {
                break;
            }
            if hidden {
                self.skip_slashdash()?;
            }
            let children = self.parse_children(depth)?;
            let repeated = seen_block;
            seen_block = true;
            let one_block_only = self.lexer.dialect() == Dialect::V1;
            if (!hidden && node.children.is_some()) || (one_block_only && repeated) {
                self.fail(Error::syntax(children.span, "unexpected children block"))?;
            } else if !hidden {
                node.children = Some(children);
            }
        }
        self.skip_spaces()?;
        let tag = self.current.kind.tag();
        if tag == Tag::Newline || tag == Tag::Semicolon {
            self.advance()?;
        } else if tag == Tag::CloseBrace && !nested {
            let error = self.error("unexpected '}'");
            self.fail(error)?;
            self.advance()?;
        } else if !(tag == Tag::Eof || tag == Tag::CloseBrace) {
            let error = self.error("expected node terminator");
            self.fail(error)?;
            self.recover()?;
        }
        proof {
            self.lemma_current_within();
        }
        proof {
            assert(node.arguments@.map_values(|value: Value<'src>| value.span).take(0) =~= Seq::<Span>::empty());
        }
        let mut index: usize = 0;
        while index < node.arguments.len()
            invariant
                head == (if node.type_annotation is Some {
                    prefix_span.joined(node.name.span)
                } else {
                    node.name.span
                }),
                node.type_annotation is Some ==> prefix_span.start_at() == old(self).offset(),
                node.span == spans_joined(head, node.arguments@.map_values(|value: Value<'src>| value.span).take(index as int)),
                old(self).wf(),
                text == old(self).text(),
                node_parts_within(node, text),
                text_len(text) <= usize::MAX,
                self.stepped(*old(self)),
                self.rank() < old(self).rank(),
                node.children matches Some(children) ==> forall|i: int|
                    0 <= i < children.nodes@.len() ==> #[trigger] tree_within(
                        children.nodes@[i],
                        text,
                    ),
                node.children matches Some(children) ==> all_nested_within(
                    children.nodes@,
                    (MAX_DEPTH - depth) as nat,
                ),
                index <= node.arguments@.len(),
                start >= old(self).offset(),
                node.span.start_at() == start,
                node.span.stop_at() <= self.offset(),
                node.span.covers(node.name.span),
                entries_between(node, start, self.offset()),
                node.children matches Some(children) ==> block_in_order(children, start, self.offset()),
                self.clean() ==> name_read_at(
                    old(self).lexer.cursor.dialect,
                    text,
                    node.name.span,
                    node.name.value@,
                ) && (node.type_annotation matches Some(annotation) ==> name_read_at(
                    old(self).lexer.cursor.dialect,
                    text,
                    annotation.span,
                    annotation.value@,
                )) && entries_read(node, old(self).lexer.cursor.dialect, text) && (
                node.children matches Some(children) ==> all_trees_read(
                    children.nodes@,
                    old(self).lexer.cursor.dialect,
                    text,
                )),
                forall|k: int| 0 <= k < index ==> node.span.covers(#[trigger] node.arguments@[k].span),
            decreases node.arguments@.len() - index,
        {
            proof {
                assert(span_within(node.span, text));
                assert(span_within(node.arguments@[index as int].span, text));
                lemma_join_within(node.span, node.arguments@[index as int].span, text);
            }
            proof {
                let spans = node.arguments@.map_values(|value: Value<'src>| value.span);
                assert(spans.take(index + 1).drop_last() =~= spans.take(index as int));
            }
            node.span = node.span.join(node.arguments[index].span);
            index = index + 1;
        }
        proof {
            let spans = node.arguments@.map_values(|value: Value<'src>| value.span);
            assert(spans.take(spans.len() as int) =~= spans);
            assert(spans + node.properties@.map_values(|property: Property<'src>| property.span).take(0) =~= spans);
        }
        let mut index: usize = 0;
        while index < node.properties.len()
            invariant
                head == (if node.type_annotation is Some {
                    prefix_span.joined(node.name.span)
                } else {
                    node.name.span
                }),
                node.type_annotation is Some ==> prefix_span.start_at() == old(self).offset(),
                node.span == spans_joined(head, node.arguments@.map_values(|value: Value<'src>| value.span) + node.properties@.map_values(|property: Property<'src>| property.span).take(index as int)),
                old(self).wf(),
                text == old(self).text(),
                node_parts_within(node, text),
                text_len(text) <= usize::MAX,
                self.stepped(*old(self)),
                self.rank() < old(self).rank(),
                node.children matches Some(children) ==> forall|i: int|
                    0 <= i < children.nodes@.len() ==> #[trigger] tree_within(
                        children.nodes@[i],
                        text,
                    ),
                node.children matches Some(children) ==> all_nested_within(
                    children.nodes@,
                    (MAX_DEPTH - depth) as nat,
                ),
                index <= node.properties@.len(),
                start >= old(self).offset(),
                node.span.start_at() == start,
                node.span.stop_at() <= self.offset(),
                node.span.covers(node.name.span),
                entries_between(node, start, self.offset()),
                node.children matches Some(children) ==> block_in_order(children, start, self.offset()),
                self.clean() ==> name_read_at(
                    old(self).lexer.cursor.dialect,
                    text,
                    node.name.span,
                    node.name.value@,
                ) && (node.type_annotation matches Some(annotation) ==> name_read_at(
                    old(self).lexer.cursor.dialect,
                    text,
                    annotation.span,
                    annotation.value@,
                )) && entries_read(node, old(self).lexer.cursor.dialect, text) && (
                node.children matches Some(children) ==> all_trees_read(
                    children.nodes@,
                    old(self).lexer.cursor.dialect,
                    text,
                )),
                forall|k: int|
                    0 <= k < node.arguments@.len() ==> node.span.covers(#[trigger] node.arguments@[k].span),
                forall|k: int| 0 <= k < index ==> node.span.covers(#[trigger] node.properties@[k].span),
            decreases node.properties@.len() - index,
        {
            proof {
                assert(span_within(node.span, text));
                assert(span_within(node.properties@[index as int].span, text));
                lemma_join_within(node.span, node.properties@[index as int].span, text);
            }
            proof {
                let before = node.arguments@.map_values(|value: Value<'src>| value.span);
                let spans = node.properties@.map_values(|property: Property<'src>| property.span);
                assert((before + spans.take(index + 1)).drop_last() =~= before + spans.take(index as int));
            }
            node.span = node.span.join(node.properties[index].span);
            index = index + 1;
        }
        proof {
            let spans = node.properties@.map_values(|property: Property<'src>| property.span);
            assert(spans.take(spans.len() as int) =~= spans);
        }
        let children_span = match &node.children {
            Some(children) => Some(children.span),
            None => None,
        };
        if let Some(children_span) = children_span {
            proof {
                lemma_join_within(node.span, children_span, text);
            }
            proof {
                let before = node.arguments@.map_values(|value: Value<'src>| value.span) + node.properties@.map_values(|property: Property<'src>| property.span);
                assert((before + seq![children_span]).drop_last() =~= before);
            }
            node.span = node.span.join(children_span);
        }
        proof {
            let before = node.arguments@.map_values(|value: Value<'src>| value.span) + node.properties@.map_values(|property: Property<'src>| property.span);
            if node.children is None {
                assert(before + Seq::<Span>::empty() =~= before);
            }
            if node.type_annotation is Some {
                assert(node.span == spans_joined(prefix_span.joined(node.name.span), part_spans(node)));
            }
            lemma_tree_within(node, text);
            let levels = (MAX_DEPTH + 1 - depth) as nat;
            assert((levels - 1) as nat == (MAX_DEPTH - depth) as nat);
            lemma_nested_within(node, levels);
            lemma_tree_in_order(node, start, self.offset());
            if self.clean() {
                lemma_tree_read(node, old(self).lexer.cursor.dialect, text);
            }
        }
        Ok(node)
    }

    /// Parses arguments and properties into `node` until something that is not
    /// an entry is reached.
    fn parse_entries(&mut self, node: &mut Node<'src>) -> (result: Result<(), Error>)
        requires
            old(self).wf(),
            node_parts_within(*old(node), old(self).text()),
            old(node).span.stop_at() <= old(self).offset(),
            entries_between(*old(node), old(node).span.start_at() as int, old(self).offset()),
            old(self).clean() ==> entries_read(
                *old(node),
                old(self).lexer.cursor.dialect,
                old(self).text(),
            ),
        ensures
            final(self).clean() ==> entries_read(
                *final(node),
                old(self).lexer.cursor.dialect,
                old(self).text(),
            ),
            entries_between(*final(node), old(node).span.start_at() as int, final(self).offset()),
            final(node).span == old(node).span,
            final(node).name == old(node).name,
            final(node).type_annotation == old(node).type_annotation,
            final(self).stepped(*old(self)),
            failure_within(result, old(self).text()),
            node_parts_within(*final(node), old(self).text()),
            final(node).children == old(node).children,
            result is Ok ==> tag_of(final(self).current.kind) != Tag::Space,
            result is Ok && tag_of(final(self).current.kind) == Tag::Slashdash ==> exists|k: int|
                1 <= k < final(self).tokens().len() && tag_of(#[trigger] final(self).tokens()[k].kind)
                    == Tag::OpenBrace && (forall|m: int|
                    1 <= m < k ==> blank(tag_of(final(self).tokens()[m].kind))),
            result is Ok && old(self).previous@ != Some(Tag::Space) && tag_of(
                final(self).current.kind,
            ) != Tag::Slashdash && starts_entry(tag_of(final(self).current.kind))
                ==> final(self).previous@ != Some(Tag::Space),
    {
        let ghost text = self.text();
        let ghost low = node.span.start_at() as int;
        loop
            invariant
                old(self).wf(),
                self.stepped(*old(self)),
                text == old(self).text(),
                node_parts_within(*node, text),
                node.children == old(node).children,
                low == old(node).span.start_at(),
                low <= old(self).offset(),
                entries_between(*node, low, self.offset()),
                self.clean() ==> entries_read(
                    *node,
                    old(self).lexer.cursor.dialect,
                    text,
                ),
                node.span == old(node).span,
                node.name == old(node).name,
                node.type_annotation == old(node).type_annotation,
                old(self).previous@ != Some(Tag::Space) ==> self.previous@ != Some(Tag::Space),
            decreases self.rank(),
        {
            let separated = self.skip_spaces()?;
            if self.at(Tag::Slashdash) {
                if self.slashdash_hides_children()? {
                    return Ok(());
                }
                self.skip_slashdash()?;
                self.parse_entry()?;
                continue;
            }
            let starts_entry = self.at(Tag::OpenParen) || self.at_name() || self.at(Tag::Literal);
            if !separated || !starts_entry {
                return Ok(());
            }
            let entry = self.parse_entry()?;
            entry.push_into(
                node,
                Ghost(text),
                Ghost(low),
                Ghost(self.offset()),
                Ghost(self.lexer.cursor.dialect),
                Ghost(self.clean()),
            );
        }
    }

    /// Parses one argument or property, treating a bare identifier without `=`
    /// as an error in v1.
    fn parse_entry(&mut self) -> (result: Result<Entry<'src>, Error>)
        requires
            old(self).wf(),
        ensures
            final(self).stepped(*old(self)),
            failure_within(result, old(self).text()),
            result matches Ok(entry) ==> entry.within(old(self).text()) && final(self).rank() < old(self).rank()
                && entry.between(old(self).offset(), final(self).offset()),
            result matches Ok(entry) ==> final(self).clean() ==> entry.is_read(
                old(self).lexer.cursor.dialect,
                old(self).text(),
            ),
            result is Ok ==> final(self).previous@ != Some(Tag::Space),
    {
        let ghost text = self.text();
        let prefix = self.parse_type_prefix()?;
        if !self.at_name() {
            let literal = self.take_literal("expected argument or property")?;
            return Ok(Entry::Argument(scalar(prefix, literal.value, literal.span, Ghost(text), Ghost(self.lexer.cursor.dialect))));
        }
        let bare = self.at(Tag::Identifier);
        let name = self.take_name("expected value")?;
        let v2 = self.lexer.dialect() == Dialect::V2;
        let mut equals_index: usize = 0;
        loop
            invariant
                old(self).wf(),
                self.stepped(*old(self)),
                self.rank() < old(self).rank(),
                text == old(self).text(),
                span_within(name.span, text),
                prefix matches Some(p) ==> span_within(p.span, text),
                span_between(name.span, old(self).offset(), self.offset()),
                prefix matches Some(p) ==> span_between(p.span, old(self).offset(), self.offset()),
                prefix matches Some(p) ==> p.span.stop_at() <= name.span.start_at(),
                self.clean() ==> (prefix matches Some(p) ==> name_read_at(
                    old(self).lexer.cursor.dialect,
                    text,
                    p.name.span,
                    p.name.value@,
                )),
                self.clean() ==> name_read_at(
                    old(self).lexer.cursor.dialect,
                    text,
                    name.span,
                    name.value@,
                ),
                self.previous@ != Some(Tag::Space),
                equals_index <= text_len(text),
            decreases text_len(text) - equals_index,
        {
            if !v2 {
                break;
            }
            let tag = self.tag_at(equals_index)?;
            if tag != Tag::Space {
                break;
            }
            proof {
                lemma_token_count(self.tokens(), self.lexer.cursor.source@, equals_index as int);
            }
            equals_index = equals_index + 1;
        }
        let tag = self.tag_at(equals_index)?;
        if tag != Tag::Equals {
            if bare && self.lexer.dialect() == Dialect::V1 {
                return Err(Error::syntax(name.span, "bare identifier is not a value"));
            }
            proof {
                if self.clean() {
                    let dialect = old(self).lexer.cursor.dialect;
                    let (i, j) = choose|i: int, j: int|
                        0 <= i <= j <= text.len() && byte_at(text, i) == name.span.start_at()
                            && byte_at(text, j) == name.span.stop_at() && #[trigger] name_read(
                            dialect,
                            text,
                            i,
                            j,
                            name.value@,
                        );
                    assert(literal_read(dialect, text, i, j, Literal::String(name.value)));
                }
            }
            return Ok(
                Entry::Argument(scalar(
                    prefix,
                    Literal::String(name.value),
                    name.span,
                    Ghost(text),
                    Ghost(self.lexer.cursor.dialect),
                )),
            );
        }
        let mut skipped: usize = 0;
        while skipped < equals_index
            invariant
                old(self).wf(),
                self.stepped(*old(self)),
                self.rank() < old(self).rank(),
                text == old(self).text(),
                span_within(name.span, text),
                prefix matches Some(p) ==> span_within(p.span, text),
                span_between(name.span, old(self).offset(), self.offset()),
                prefix matches Some(p) ==> span_between(p.span, old(self).offset(), self.offset()),
                prefix matches Some(p) ==> p.span.stop_at() <= name.span.start_at(),
                self.clean() ==> (prefix matches Some(p) ==> name_read_at(
                    old(self).lexer.cursor.dialect,
                    text,
                    p.name.span,
                    p.name.value@,
                )),
                self.clean() ==> name_read_at(
                    old(self).lexer.cursor.dialect,
                    text,
                    name.span,
                    name.value@,
                ),
            decreases equals_index - skipped,
        {
            self.advance()?;
            skipped = skipped + 1;
        }
        if let Some(annotation) = prefix {
            self.fail(Error::syntax(annotation.span, "property names cannot have type annotations"))?;
        }
        self.advance()?;
        let value = self.parse_value()?;
        Ok(Entry::Property(name, value))
    }

    /// Consumes the current token as a literal value, accepting bare identifiers
    /// only in v2.
    fn take_literal(&mut self, message: &str) -> (result: Result<Spanned<Literal<'src>>, Error>)
        requires
            old(self).wf(),
        ensures
            final(self).stepped(*old(self)),
            failure_within(result, old(self).text()),
            result matches Ok(literal) ==> span_within(literal.span, old(self).text()) && final(self).rank() < old(self).rank()
                && span_between(literal.span, old(self).offset(), final(self).offset()),
            result matches Ok(literal) ==> final(self).clean() ==> literal_read_at(
                old(self).lexer.cursor.dialect,
                old(self).text(),
                literal.span,
                literal.value,
            ),
            result is Ok ==> final(self).previous@ != Some(Tag::Space),
    {
        let span = self.span();
        let ghost before = *self;
        let token = self.advance()?;
        proof {
            if before.clean() {
                assert(before.tokens()[0] == before.current);
                assert(token_read_at(before.lexer.cursor.dialect, before.text(), token));
                let (i, j) = choose|i: int, j: int|
                    0 <= i <= j <= before.text().len() && byte_at(before.text(), i)
                        == token.span.start_at() && byte_at(before.text(), j) == token.span.stop_at()
                        && #[trigger] token_read(before.lexer.cursor.dialect, before.text(), i, j, token.kind);
                if token.kind is String {
                    assert(literal_read(
                        before.lexer.cursor.dialect,
                        before.text(),
                        i,
                        j,
                        Literal::String(token.kind->String_0),
                    ));
                }
                if token.kind is Identifier {
                    assert(literal_read(
                        before.lexer.cursor.dialect,
                        before.text(),
                        i,
                        j,
                        Literal::String(token.kind->Identifier_0),
                    ));
                }
                if token.kind is Literal {
                    assert(literal_read(
                        before.lexer.cursor.dialect,
                        before.text(),
                        i,
                        j,
                        token.kind->Literal_0,
                    ));
                }
            }
        }
        let v2 = self.lexer.dialect() == Dialect::V2;
        match token.kind {
            TokenKind::String(text) => Ok(Spanned::new(Literal::String(text), span)),
            TokenKind::Identifier(text) => {
                if v2 {
                    Ok(Spanned::new(Literal::String(text), span))
                } else {
                    Err(Error::syntax(span, "bare identifier is not a value"))
                }
            },
            TokenKind::Literal(literal) => Ok(Spanned::new(literal, span)),
            _ => Err(Error::syntax(span, message)),
        }
    }

    /// Parses the value on the right hand side of a property.
    fn parse_value(&mut self) -> (result: Result<Value<'src>, Error>)
        requires
            old(self).wf(),
        ensures
            final(self).stepped(*old(self)),
            failure_within(result, old(self).text()),
            result matches Ok(value) ==> span_within(value.span, old(self).text())
                && span_between(value.span, old(self).offset(), final(self).offset()),
            result matches Ok(value) ==> final(self).clean() ==> value_read(
                old(self).lexer.cursor.dialect,
                old(self).text(),
                value,
            ),
            result is Ok ==> final(self).previous@ != Some(Tag::Space),
    {
        let ghost text = self.text();
        self.skip_spaces()?;
        let prefix = self.parse_type_prefix()?;
        let literal = self.take_literal("expected value")?;
        Ok(scalar(prefix, literal.value, literal.span, Ghost(text), Ghost(self.lexer.cursor.dialect)))
    }

    /// Parses a parenthesised type annotation if one starts at the current
    /// token.
    fn parse_type_prefix(&mut self) -> (result: Result<Option<TypePrefix<'src>>, Error>)
        requires
            old(self).wf(),
        ensures
            final(self).stepped(*old(self)),
            failure_within(result, old(self).text()),
            result matches Ok(Some(prefix)) ==> span_within(prefix.span, old(self).text())
                && span_within(prefix.name.span, old(self).text())
                && span_between(prefix.span, old(self).offset(), final(self).offset()),
            result matches Ok(Some(prefix)) ==> final(self).clean() ==> name_read_at(
                old(self).lexer.cursor.dialect,
                old(self).text(),
                prefix.name.span,
                prefix.name.value@,
            ),
            tag_of(old(self).current.kind) != Tag::OpenParen ==> (result matches Ok(None)
                && *final(self) == *old(self)),
            tag_of(old(self).current.kind) == Tag::OpenParen ==> !(result matches Ok(None)),
            result matches Ok(Some(prefix)) ==> prefix.span.start_at() == old(self).offset() && tag_of(
                final(self).current.kind,
            ) != Tag::Space,
    {
        let ghost text = self.text();
        if !self.at(Tag::OpenParen) {
            return Ok(None);
        }
        let open = self.advance()?.span;
        self.skip_spaces()?;
        let name = self.take_name("expected type name")?;
        self.skip_spaces()?;
        let close = self.expect(Tag::CloseParen, "expected ')'")?.span;
        self.skip_spaces()?;
        proof {
            lemma_join_within(open, close, text);
        }
        Ok(Some(TypePrefix { span: open.join(close), name }))
    }

    /// Parses a braced children block, tolerating end of input where the closing
    /// brace should be.
    fn parse_children(&mut self, depth: usize) -> (result: Result<Document<'src>, Error>)
        requires
            old(self).wf(),
            depth <= MAX_DEPTH,
        ensures
            final(self).stepped(*old(self)),
            failure_within(result, old(self).text()),
            result matches Ok(document) ==> span_within(document.span, old(self).text()) && final(self).rank() < old(self).rank() && forall|i: int|
                0 <= i < document.nodes@.len() ==> #[trigger] tree_within(
                    document.nodes@[i],
                    old(self).text(),
                ),
            result matches Ok(document) ==> all_nested_within(
                document.nodes@,
                (MAX_DEPTH - depth) as nat,
            ),
            result matches Ok(document) ==> block_in_order(document, old(self).offset(), final(self).offset()),
            result matches Ok(document) ==> final(self).clean() ==> all_trees_read(
                document.nodes@,
                old(self).lexer.cursor.dialect,
                old(self).text(),
            ),
        decreases MAX_DEPTH + 2 - depth, 0int,
    {
        let ghost text = self.text();
        let open = self.expect(Tag::OpenBrace, "expected '{'")?.span;
        let nodes = self.parse_nodes(depth + 1, true)?;
        let close = if self.at(Tag::Eof) {
            proof {
                self.lemma_current_within();
            }
            self.span()
        } else {
            self.expect(Tag::CloseBrace, "expected '}'")?.span
        };
        proof {
            lemma_join_within(open, close, text);
        }
        Ok(Document { nodes, span: open.join(close) })
    }
}

} // verus!
