//! Turning parsed nodes and values into Rust values: the decoding traits, the
//! decoder that hands out a node's entries, and the scalar conversions.
use std::borrow::Cow;
use std::path::PathBuf;

use vstd::prelude::*;

use crate::ast::{accepted_name, child_list, no_annotation_message, digit_value, radix_base, Literal, Node, Property, Radix, Value};
use crate::dialect::Dialect;
use crate::errors::{decimal_text, Error, ErrorKind};
use crate::span::{Span, Spanned};
use crate::text::{cow_str, debug_quoted, quoted, same_text};

verus! {

pub trait Decode: Sized {
    const DIALECT: Dialect = Dialect::V2;

    /// # Errors
    ///
    /// Fails when the node does not fit `Self`.
    fn decode(decoder: &mut Decoder<'_>) -> (result: Result<Self, Error>)
        requires
            old(decoder).wf(),
        ensures
            final(decoder).wf(),
    ;

    /// # Errors
    ///
    /// Fails when the node does not fit `Self` or leaves an entry unused.
    ///
    /// `decode` runs on a fresh decoder for `node`; the result is what
    /// `Decoder::conclude` gives on the decoder that `decode` left behind and
    /// on what `decode` returned: an error of `decode` unchanged, else the
    /// first entry left unused, else the value.
    fn decode_node(node: &Node) -> (result: Result<Self, Error>)
        ensures
            exists|start: &mut Decoder, decoded: Result<Self, Error>|
                fresh_for(*start, *node) && call_ensures(Self::decode, (start,), decoded)
                    && concluded(*final(start), decoded, result),
    {
        let mut decoder = Decoder::new(node);
        let decode = Self::decode;
        let decoded = decode(&mut decoder);
        decoder.conclude(decoded)
    }
}

/// Whether `result` is what concluding a decode that returned `decoded`
/// gives on `decoder`: an error of the decode unchanged; else the error for
/// the first entry left unused, or the decoded value when none is.
pub open spec fn concluded<T>(decoder: Decoder, decoded: Result<T, Error>, result: Result<T, Error>) -> bool {
    match decoded {
        Err(error) => result == Err::<T, Error>(error),
        Ok(value) => finish_outcome(result, decoder.unfinished_after(decoder.next_argument()))
            && (result is Ok ==> result == Ok::<T, Error>(value)),
    }
}

/// Whether `decoder` is fresh for `node`: it hands out the entries of `node`
/// under its own name, from the first argument on, with nothing claimed.
pub open spec fn fresh_for(decoder: Decoder, node: Node) -> bool {
    &&& decoder.wf()
    &&& decoder.source() == node
    &&& decoder.renamed() is None
    &&& decoder.next_argument() == 0
    &&& decoder.property_claims() == Seq::new(node.properties@.len(), |i: int| false)
    &&& decoder.child_claims() == Seq::new(child_list(node).len(), |i: int| false)
}

/// What decoding a whole node gives, for a `decode` that, run on a fresh
/// decoder `start` for `node`, returned `decoded`: an error of `decode` comes
/// back unchanged; when `decode` succeeded but left an argument unclaimed,
/// the result is an `Unexpected` "unexpected argument" error at that
/// argument; when it left a property unclaimed, an `Unexpected` error at the
/// property's name; and when it left nothing unclaimed, the decoded value.
pub proof fn law_decode_node<T: Decode>(
    node: Node,
    start: &mut Decoder,
    decoded: Result<T, Error>,
    result: Result<T, Error>,
)
    requires
        fresh_for(*start, node),
        call_ensures(T::decode, (start,), decoded),
        concluded(*final(start), decoded, result),
    ensures
        decoded matches Err(e) ==> result == Err::<T, Error>(e),
        decoded is Ok && (*final(start)).next_argument() < (*final(start)).source().arguments@.len()
            ==> (result matches Err(e) && e.category() == ErrorKind::Unexpected && e.detail()
            == "unexpected argument"@ && e.at() == (*final(start)).source().arguments@[
            (*final(start)).next_argument()].span),
        decoded is Ok && (*final(start)).unfinished_after((*final(start)).next_argument()) is Some
            ==> (result matches Err(e) && e.category() == ErrorKind::Unexpected),
        decoded matches Ok(value) ==> ((*final(start)).unfinished_after(
            (*final(start)).next_argument(),
        ) is None ==> result == Ok::<T, Error>(value)),
{
}

/// The indices below `n`, in increasing order, that satisfy `wanted`.
pub open spec fn indices_where(n: int, wanted: spec_fn(int) -> bool) -> Seq<int>
    decreases n,
{
    if n <= 0 {
        Seq::empty()
    } else if wanted(n - 1) {
        indices_where(n - 1, wanted).push(n - 1)
    } else {
        indices_where(n - 1, wanted)
    }
}

/// Every index that `indices_where` lists is below `n` and satisfies
/// `wanted`, and the list is strictly increasing.
pub proof fn lemma_indices_where(n: int, wanted: spec_fn(int) -> bool)
    ensures
        forall|k: int|
            0 <= k < indices_where(n, wanted).len() ==> 0 <= #[trigger] indices_where(n, wanted)[k]
                < n && wanted(indices_where(n, wanted)[k]),
        forall|k: int, l: int|
            0 <= k < l < indices_where(n, wanted).len() ==> #[trigger] indices_where(n, wanted)[k]
                < #[trigger] indices_where(n, wanted)[l],
        forall|i: int|
            0 <= i < n && #[trigger] wanted(i) ==> exists|k: int|
                0 <= k < indices_where(n, wanted).len() && #[trigger] indices_where(n, wanted)[k]
                    == i,
    decreases n,
{
    if n > 0 {
        lemma_indices_where(n - 1, wanted);
        let before = indices_where(n - 1, wanted);
        let after = indices_where(n, wanted);
        assert forall|i: int| 0 <= i < n && #[trigger] wanted(i) implies exists|k: int|
            0 <= k < after.len() && #[trigger] after[k] == i by {
            if i == n - 1 {
                assert(after[before.len() as int] == i);
            } else {
                let k = choose|k: int| 0 <= k < before.len() && before[k] == i;
                assert(after[k] == i);
            }
        }
    }
}

/// One more index either extends the list by itself or leaves it unchanged.
pub proof fn lemma_indices_step(n: int, wanted: spec_fn(int) -> bool)
    requires
        0 <= n,
    ensures
        indices_where(n + 1, wanted) == if wanted(n) {
            indices_where(n, wanted).push(n)
        } else {
            indices_where(n, wanted)
        },
{
}

/// The indices whose claim flag is clear.
pub open spec fn unclaimed(claims: Seq<bool>) -> spec_fn(int) -> bool {
    |i: int| !claims[i]
}

/// The unclaimed properties of `node` named `name`.
pub open spec fn unclaimed_property_named<'src>(
    claims: Seq<bool>,
    node: Node<'src>,
    name: Seq<char>,
) -> spec_fn(int) -> bool {
    |i: int| !claims[i] && property_named(node, i, name)
}

/// The unclaimed children of `node`, restricted to those named `name` when a
/// name is given.
pub open spec fn unclaimed_child_named<'src>(
    claims: Seq<bool>,
    node: Node<'src>,
    name: Option<Seq<char>>,
) -> spec_fn(int) -> bool {
    |i: int| !claims[i] && match name {
        Some(want) => child_named(node, i, want),
        None => true,
    }
}

/// Whether property `index` of `node` is named `name`.
pub open spec fn property_named<'src>(node: Node<'src>, index: int, name: Seq<char>) -> bool {
    node.properties@[index].name.value@ == name
}

/// Whether child `index` of `node` is named `name`.
pub open spec fn child_named<'src>(node: Node<'src>, index: int, name: Seq<char>) -> bool {
    child_list(node)[index].name.value@ == name
}

/// The first index below `n` that satisfies `wanted`, if any.
pub open spec fn first_index(n: int, wanted: spec_fn(int) -> bool) -> Option<int> {
    let found = indices_where(n, wanted);
    if found.len() == 0 {
        None
    } else {
        Some(found[0])
    }
}

/// The indices below `n` that satisfy `wanted` begin with those below a
/// smaller bound.
pub proof fn lemma_indices_prefix(n: int, m: int, wanted: spec_fn(int) -> bool)
    requires
        0 <= n <= m,
    ensures
        indices_where(n, wanted).len() <= indices_where(m, wanted).len(),
        forall|k: int|
            0 <= k < indices_where(n, wanted).len() ==> indices_where(m, wanted)[k]
                == #[trigger] indices_where(n, wanted)[k],
    decreases m - n,
{
    if n < m {
        lemma_indices_prefix(n, m - 1, wanted);
    }
}

/// What `finish` reports for a node whose first `next` arguments, and the
/// properties and children marked in the claims, have been handed out: the
/// range and text of the first thing left over, if anything is.
pub open spec fn leftover<'src>(
    node: Node<'src>,
    next: int,
    property_claims: Seq<bool>,
    child_claims: Seq<bool>,
) -> Option<(Span, Seq<char>)> {
    if next < node.arguments@.len() {
        Some((node.arguments@[next].span, "unexpected argument"@))
    } else {
        match first_index(property_claims.len() as int, unclaimed(property_claims)) {
            Some(i) => Some(
                (
                    node.properties@[i].name.span,
                    "unexpected property "@ + quoted(node.properties@[i].name.value@),
                ),
            ),
            None => match first_index(child_claims.len() as int, unclaimed(child_claims)) {
                Some(i) => Some(
                    (
                        child_list(node)[i].name.span,
                        "unexpected node "@ + quoted(child_list(node)[i].name.value@),
                    ),
                ),
                None => None,
            },
        }
    }
}

/// Nothing is left over for `finish` to report exactly when every argument
/// has been handed out and every property and every child has been claimed.
pub proof fn lemma_nothing_left_over<'src>(
    node: Node<'src>,
    next: int,
    property_claims: Seq<bool>,
    child_claims: Seq<bool>,
)
    requires
        0 <= next <= node.arguments@.len(),
        property_claims.len() == node.properties@.len(),
        child_claims.len() == child_list(node).len(),
    ensures
        leftover(node, next, property_claims, child_claims) is None <==> {
            &&& next == node.arguments@.len()
            &&& forall|i: int| 0 <= i < property_claims.len() ==> #[trigger] property_claims[i]
            &&& forall|i: int| 0 <= i < child_claims.len() ==> #[trigger] child_claims[i]
        },
{
    let n = property_claims.len() as int;
    let m = child_claims.len() as int;
    lemma_indices_where(n, unclaimed(property_claims));
    lemma_indices_where(m, unclaimed(child_claims));
    if exists|i: int| 0 <= i < n && !property_claims[i] {
        let i = choose|i: int| 0 <= i < n && !property_claims[i];
        assert(unclaimed(property_claims)(i));
    }
    if exists|i: int| 0 <= i < m && !child_claims[i] {
        let i = choose|i: int| 0 <= i < m && !child_claims[i];
        assert(unclaimed(child_claims)(i));
    }
    if indices_where(n, unclaimed(property_claims)).len() > 0 {
        let i = indices_where(n, unclaimed(property_claims))[0];
        assert(!property_claims[i]);
    }
    if indices_where(m, unclaimed(child_claims)).len() > 0 {
        let i = indices_where(m, unclaimed(child_claims))[0];
        assert(!child_claims[i]);
    }
}

/// A property is handed out once: after `property` has claimed the
/// properties named `name`, none of that name is left unclaimed, so asking
/// for it again gives nothing.
pub proof fn lemma_property_claimed_once<'src>(node: Node<'src>, claims: Seq<bool>, name: Seq<char>)
    requires
        claims.len() == node.properties@.len(),
    ensures
        indices_where(
            node.properties@.len() as int,
            unclaimed_property_named(
                Seq::new(
                    node.properties@.len(),
                    |i: int| claims[i] || property_named(node, i, name),
                ),
                node,
                name,
            ),
        ).len() == 0,
{
    let n = node.properties@.len() as int;
    let after = Seq::new(node.properties@.len(), |i: int| claims[i] || property_named(node, i, name));
    let wanted = unclaimed_property_named(after, node, name);
    lemma_indices_where(n, wanted);
    if indices_where(n, wanted).len() > 0 {
        let i = indices_where(n, wanted)[0];
        assert(wanted(i));
        assert(after[i]);
    }
}

/// Whether `result` is the error reported for a left over entry at `span`
/// with `detail`, or success when nothing is left over.
pub open spec fn finish_outcome<T>(result: Result<T, Error>, left: Option<(Span, Seq<char>)>) -> bool {
    match left {
        Some((span, detail)) => result matches Err(error) && error.category()
            == ErrorKind::Unexpected && error.at() == span && error.detail() == detail,
        None => result is Ok,
    }
}

pub struct Decoder<'src> {
    /// Node whose arguments, properties, and children are being handed out.
    node: &'src Node<'src>,
    /// Replacement name reported by `name`, set when a caller renames the node.
    name_override: Option<Spanned<Cow<'src, str>>>,
    /// Index of the next argument that has not been handed out yet.
    arg_next: usize,
    /// One flag per property recording which ones have been claimed.
    props_used: Used,
    /// One flag per child node recording which ones have been claimed.
    children_used: Used,
}

impl<'src> Decoder<'src> {
    /// The claim sets cover every property and child, and no more arguments
    /// were handed out than there are.
    pub closed spec fn wf(self) -> bool {
        &&& self.arg_next <= self.node.arguments@.len()
        &&& self.props_used@.len() >= self.node.properties@.len()
        &&& self.children_used@.len() >= child_list(*self.node).len()
    }

    /// The node being decoded.
    pub closed spec fn source(self) -> Node<'src> {
        *self.node
    }

    /// How many arguments have been handed out.
    pub closed spec fn next_argument(self) -> int {
        self.arg_next as int
    }

    /// For each property, whether it has been claimed.
    pub closed spec fn property_claims(self) -> Seq<bool> {
        Seq::new(self.node.properties@.len(), |i: int| self.props_used@[i])
    }

    /// For each child node, whether it has been claimed.
    pub closed spec fn child_claims(self) -> Seq<bool> {
        Seq::new(child_list(*self.node).len(), |i: int| self.children_used@[i])
    }

    /// A well-formed decoder has handed out between none and all of the
    /// node's arguments, and keeps one claim for each property and each child.
    pub proof fn lemma_claim_lengths(self)
        requires
            self.wf(),
        ensures
            0 <= self.next_argument() <= self.source().arguments@.len(),
            self.property_claims().len() == self.source().properties@.len(),
            self.child_claims().len() == child_list(self.source()).len(),
    {
    }

    /// The name given by `set_name`, if any.
    pub closed spec fn renamed(self) -> Option<Spanned<Cow<'src, str>>> {
        self.name_override
    }

    /// `self` decodes the same node as `before` with the same name, and its
    /// property claims and child claims are `properties` and `children`.
    pub open spec fn same_but_claims(
        self,
        before: Self,
        properties: Seq<bool>,
        children: Seq<bool>,
    ) -> bool {
        &&& self.source() == before.source()
        &&& self.renamed() == before.renamed()
        &&& self.property_claims() == properties
        &&& self.child_claims() == children
    }

    pub fn new(node: &'src Node<'src>) -> (decoder: Self)
        ensures
            decoder.wf(),
            decoder.source() == *node,
            decoder.renamed() is None,
            decoder.next_argument() == 0,
            decoder.property_claims() == Seq::new(node.properties@.len(), |i: int| false),
            decoder.child_claims() == Seq::new(child_list(*node).len(), |i: int| false),
    {
        let decoder = Self {
            node,
            name_override: None,
            arg_next: 0,
            props_used: Used::new(node.properties.len()),
            children_used: Used::new(node.child_nodes().len()),
        };
        proof {
            assert(decoder.property_claims() =~= Seq::new(node.properties@.len(), |i: int| false));
            assert(decoder.child_claims() =~= Seq::new(child_list(*node).len(), |i: int| false));
        }
        decoder
    }

    pub fn node(&self) -> (node: &'src Node<'src>)
        ensures
            *node == self.source(),
    {
        self.node
    }

    pub fn name(&self) -> (name: &Spanned<Cow<'src, str>>)
        ensures
            *name == match self.renamed() {
                Some(renamed) => renamed,
                None => self.source().name,
            },
    {
        match &self.name_override {
            Some(renamed) => renamed,
            None => &self.node.name,
        }
    }

    pub fn set_name(&mut self, name: Spanned<Cow<'src, str>>)
        requires
            old(self).wf(),
        ensures
            final(self).wf(),
            final(self).renamed() == Some(name),
            final(self).source() == old(self).source(),
            final(self).next_argument() == old(self).next_argument(),
            final(self).property_claims() == old(self).property_claims(),
            final(self).child_claims() == old(self).child_claims(),
    {
        self.name_override = Some(name);
    }

    pub fn span(&self) -> (span: Span)
        ensures
            span == self.source().span,
    {
        self.node.span
    }

    pub fn type_annotation(&self) -> (annotation: Option<&'src Spanned<Cow<'src, str>>>)
        ensures
            annotation == match self.source().type_annotation {
                Some(found) => Some(&found),
                None => None,
            },
    {
        let node = self.node;
        match &node.type_annotation {
            Some(found) => Some(found),
            None => None,
        }
    }

    /// # Errors
    ///
    /// Fails when the node carries a type annotation.
    pub fn reject_type(&self) -> (result: Result<(), Error>)
        ensures
            match self.source().type_annotation {
                None => result is Ok,
                Some(found) => result matches Err(error) && error.category() == ErrorKind::Unexpected
                    && error.at() == found.span && error.detail() == "unexpected type annotation "@
                    + quoted(found.value@),
            },
    {
        self.node.reject_type()
    }

    pub fn argument(&mut self) -> (value: Option<&'src Value<'src>>)
        requires
            old(self).wf(),
        ensures
            final(self).wf(),
            final(self).same_but_claims(
                *old(self),
                old(self).property_claims(),
                old(self).child_claims(),
            ),
            old(self).next_argument() < old(self).source().arguments@.len() ==> value == Some(
                &old(self).source().arguments@[old(self).next_argument()],
            ) && final(self).next_argument() == old(self).next_argument() + 1,
            old(self).next_argument() >= old(self).source().arguments@.len() ==> value is None
                && final(self).next_argument() == old(self).next_argument(),
    {
        let node = self.node;
        if self.arg_next < node.arguments.len() {
            let value = &node.arguments[self.arg_next];
            self.arg_next = self.arg_next + 1;
            Some(value)
        } else {
            None
        }
    }

    pub fn arguments(&mut self) -> (values: &'src [Value<'src>])
        requires
            old(self).wf(),
        ensures
            final(self).wf(),
            final(self).same_but_claims(
                *old(self),
                old(self).property_claims(),
                old(self).child_claims(),
            ),
            values@ == old(self).source().arguments@.skip(old(self).next_argument()),
            final(self).next_argument() == old(self).source().arguments@.len(),
    {
        let node = self.node;
        let all = node.arguments.as_slice();
        let (_, rest) = all.split_at(self.arg_next);
        self.arg_next = node.arguments.len();
        rest
    }

    /// Claims every unclaimed property named `name` and hands out the value of
    /// the last of them.
    pub fn property(&mut self, name: &str) -> (value: Option<&'src Value<'src>>)
        requires
            old(self).wf(),
        ensures
            final(self).wf(),
            ({
                let found = indices_where(
                    old(self).source().properties@.len() as int,
                    unclaimed_property_named(old(self).property_claims(), old(self).source(), name@),
                );
                &&& final(self).same_but_claims(
                    *old(self),
                    Seq::new(
                        old(self).source().properties@.len(),
                        |i: int| old(self).property_claims()[i] || property_named(
                            old(self).source(),
                            i,
                            name@,
                        ),
                    ),
                    old(self).child_claims(),
                )
                &&& final(self).next_argument() == old(self).next_argument()
                &&& found.len() == 0 ==> value is None
                &&& found.len() > 0 ==> value == Some(
                    &old(self).source().properties@[found.last()].value,
                )
            }),
    {
        let ghost before = *self;
        let ghost wanted = unclaimed_property_named(before.property_claims(), before.source(), name@);
        let node = self.node;
        let mut found: Option<&'src Value<'src>> = None;
        let mut index: usize = 0;
        while index < node.properties.len()
            invariant
                wanted == unclaimed_property_named(before.property_claims(), before.source(), name@),
                node == before.node,
                index <= node.properties@.len(),
                self.node == before.node,
                self.name_override == before.name_override,
                self.arg_next == before.arg_next,
                self.children_used == before.children_used,
                self.props_used@.len() == before.props_used@.len(),
                self.props_used@.len() >= node.properties@.len(),
                forall|i: int|
                    0 <= i < node.properties@.len() ==> #[trigger] self.props_used@[i] == if i
                        < index {
                        before.props_used@[i] || property_named(*node, i, name@)
                    } else {
                        before.props_used@[i]
                    },
                indices_where(index as int, wanted).len() == 0 ==> found is None,
                indices_where(index as int, wanted).len() > 0 ==> found == Some(
                    &node.properties@[indices_where(index as int, wanted).last()].value,
                ),
            decreases node.properties@.len() - index,
        {
            let property: &'src Property<'src> = &node.properties[index];
            proof {
                lemma_indices_step(index as int, wanted);
            }
            let used = self.props_used.get(index);
            if !used && same_text(cow_str(&property.name.value), name) {
                self.props_used.set(index);
                found = Some(&property.value);
            }
            index = index + 1;
        }
        proof {
            assert(self.property_claims() =~= Seq::new(
                before.source().properties@.len(),
                |i: int| before.property_claims()[i] || property_named(before.source(), i, name@),
            ));
            assert(self.child_claims() =~= before.child_claims());
        }
        found
    }

    /// Everything left over once the arguments up to `next` are handed out.
    pub open spec fn unfinished_after(self, next: int) -> Option<(Span, Seq<char>)> {
        leftover(self.source(), next, self.property_claims(), self.child_claims())
    }

    pub fn properties(&mut self) -> (entries: Vec<(&'src str, &'src Value<'src>)>)
        requires
            old(self).wf(),
        ensures
            final(self).wf(),
            ({
                let found = indices_where(
                    old(self).source().properties@.len() as int,
                    unclaimed(old(self).property_claims()),
                );
                &&& final(self).same_but_claims(
                    *old(self),
                    Seq::new(old(self).source().properties@.len(), |i: int| true),
                    old(self).child_claims(),
                )
                &&& final(self).next_argument() == old(self).next_argument()
                &&& entries@.len() == found.len()
                &&& forall|k: int|
                    0 <= k < found.len() ==> (#[trigger] entries@[k]).0@ == old(
                        self,
                    ).source().properties@[found[k]].name.value@ && *entries@[k].1 == old(
                        self,
                    ).source().properties@[found[k]].value
            }),
    {
        let ghost before = *self;
        let ghost wanted = unclaimed(before.property_claims());
        let node = self.node;
        let mut entries: Vec<(&'src str, &'src Value<'src>)> = Vec::new();
        let mut index: usize = 0;
        while index < node.properties.len()
            invariant
                wanted == unclaimed(before.property_claims()),
                node == before.node,
                index <= node.properties@.len(),
                self.node == before.node,
                self.name_override == before.name_override,
                self.arg_next == before.arg_next,
                self.children_used == before.children_used,
                self.props_used@.len() == before.props_used@.len(),
                self.props_used@.len() >= node.properties@.len(),
                forall|i: int|
                    0 <= i < node.properties@.len() ==> #[trigger] self.props_used@[i] == if i
                        < index {
                        true
                    } else {
                        before.props_used@[i]
                    },
                entries@.len() == indices_where(index as int, wanted).len(),
                forall|k: int|
                    0 <= k < entries@.len() ==> (#[trigger] entries@[k]).0@
                        == node.properties@[indices_where(index as int, wanted)[k]].name.value@
                        && *entries@[k].1 == node.properties@[indices_where(
                        index as int,
                        wanted,
                    )[k]].value,
            decreases node.properties@.len() - index,
        {
            let property: &'src Property<'src> = &node.properties[index];
            proof {
                lemma_indices_step(index as int, wanted);
            }
            if self.props_used.claim(index) {
                entries.push((cow_str(&property.name.value), &property.value));
            }
            index = index + 1;
        }
        proof {
            assert(self.property_claims() =~= Seq::new(
                before.source().properties@.len(),
                |i: int| true,
            ));
            assert(self.child_claims() =~= before.child_claims());
        }
        entries
    }

    /// # Errors
    ///
    /// Fails when more than one unused child is named `name`.
    pub fn child(&mut self, name: &str) -> (result: Result<Option<&'src Node<'src>>, Error>)
        requires
            old(self).wf(),
        ensures
            final(self).wf(),
            ({
                let children = child_list(old(self).source());
                let found = indices_where(
                    children.len() as int,
                    unclaimed_child_named(old(self).child_claims(), old(self).source(), Some(name@)),
                );
                &&& final(self).next_argument() == old(self).next_argument()
                &&& found.len() == 0 ==> result == Ok::<Option<&Node>, Error>(None)
                    && final(self).same_but_claims(
                    *old(self),
                    old(self).property_claims(),
                    old(self).child_claims(),
                )
                &&& found.len() == 1 ==> result == Ok::<Option<&Node>, Error>(Some(&children[found[0]]))
                    && final(self).same_but_claims(
                    *old(self),
                    old(self).property_claims(),
                    old(self).child_claims().update(found[0], true),
                )
                &&& found.len() >= 2 ==> final(self).same_but_claims(
                    *old(self),
                    old(self).property_claims(),
                    old(self).child_claims(),
                ) && (result matches Err(error) && error.category() == ErrorKind::Duplicate
                    && error.at() == children[found[1]].name.span && error.detail()
                    == "duplicate child "@ + quoted(name@))
            }),
    {
        let ghost before = *self;
        let ghost wanted = unclaimed_child_named(before.child_claims(), before.source(), Some(name@));
        let node = self.node;
        let nodes: &'src [Node<'src>] = node.child_nodes();
        let mut found: Option<usize> = None;
        let mut index: usize = 0;
        while index < nodes.len()
            invariant
                wanted == unclaimed_child_named(before.child_claims(), before.source(), Some(name@)),
                nodes@ == child_list(*node),
                node == before.node,
                *self == before,
                self.wf(),
                index <= nodes@.len(),
                indices_where(index as int, wanted).len() <= 1,
                found is None <==> indices_where(index as int, wanted).len() == 0,
                found matches Some(k) ==> indices_where(index as int, wanted) == seq![k as int],
            decreases nodes@.len() - index,
        {
            let child: &'src Node<'src> = &nodes[index];
            proof {
                lemma_indices_step(index as int, wanted);
            }
            let used = self.children_used.get(index);
            if !used && same_text(cow_str(&child.name.value), name) {
                if found.is_some() {
                    proof {
                        lemma_indices_prefix(index as int + 1, nodes@.len() as int, wanted);
                        assert(indices_where(index as int + 1, wanted)[1] == index as int);
                    }
                    let mut message = "duplicate child ".to_owned();
                    message.append(debug_quoted(name).as_str());
                    return Err(Error::new(ErrorKind::Duplicate, child.name.span, message));
                }
                found = Some(index);
            }
            index = index + 1;
        }
        proof {
            lemma_indices_where(nodes@.len() as int, wanted);
            if let Some(k) = found {
                assert(indices_where(nodes@.len() as int, wanted)[0] == k);
            }
        }
        match found {
            Some(index) => {
                self.children_used.set(index);
                proof {
                    assert(self.child_claims() =~= before.child_claims().update(index as int, true));
                    assert(self.property_claims() =~= before.property_claims());
                }
                Ok(Some(&nodes[index]))
            },
            None => Ok(None),
        }
    }

    pub fn children(&mut self, name: Option<&str>) -> (nodes: Vec<&'src Node<'src>>)
        requires
            old(self).wf(),
        ensures
            final(self).wf(),
            ({
                let children = child_list(old(self).source());
                let want = match name {
                    Some(want) => Some(want@),
                    None => None,
                };
                let found = indices_where(
                    children.len() as int,
                    unclaimed_child_named(old(self).child_claims(), old(self).source(), want),
                );
                &&& final(self).same_but_claims(
                    *old(self),
                    old(self).property_claims(),
                    Seq::new(
                        children.len(),
                        |i: int| old(self).child_claims()[i] || unclaimed_child_named(
                            Seq::new(children.len(), |j: int| false),
                            old(self).source(),
                            want,
                        )(i),
                    ),
                )
                &&& final(self).next_argument() == old(self).next_argument()
                &&& nodes@.len() == found.len()
                &&& forall|k: int| 0 <= k < found.len() ==> *#[trigger] nodes@[k] == children[found[k]]
            }),
    {
        let ghost before = *self;
        let ghost want = match name {
            Some(want) => Some(want@),
            None => None,
        };
        let ghost named = unclaimed_child_named(
            Seq::new(child_list(before.source()).len(), |j: int| false),
            before.source(),
            want,
        );
        let ghost wanted = unclaimed_child_named(before.child_claims(), before.source(), want);
        let node = self.node;
        let all: &'src [Node<'src>] = node.child_nodes();
        let mut nodes: Vec<&'src Node<'src>> = Vec::new();
        let mut index: usize = 0;
        while index < all.len()
            invariant
                want == match name {
                    Some(want) => Some(want@),
                    None => None::<Seq<char>>,
                },
                wanted == unclaimed_child_named(before.child_claims(), before.source(), want),
                named == unclaimed_child_named(
                    Seq::new(child_list(before.source()).len(), |j: int| false),
                    before.source(),
                    want,
                ),
                all@ == child_list(*node),
                node == before.node,
                index <= all@.len(),
                self.node == before.node,
                self.name_override == before.name_override,
                self.arg_next == before.arg_next,
                self.props_used == before.props_used,
                self.children_used@.len() == before.children_used@.len(),
                self.children_used@.len() >= all@.len(),
                forall|i: int|
                    0 <= i < all@.len() ==> #[trigger] self.children_used@[i] == if i < index {
                        before.children_used@[i] || named(i)
                    } else {
                        before.children_used@[i]
                    },
                nodes@.len() == indices_where(index as int, wanted).len(),
                forall|k: int|
                    0 <= k < nodes@.len() ==> *#[trigger] nodes@[k] == all@[indices_where(
                        index as int,
                        wanted,
                    )[k]],
            decreases all@.len() - index,
        {
            let child: &'src Node<'src> = &all[index];
            proof {
                lemma_indices_step(index as int, wanted);
            }
            let matches_name = match name {
                Some(want) => same_text(cow_str(&child.name.value), want),
                None => true,
            };
            if matches_name && self.children_used.claim(index) {
                nodes.push(child);
            }
            index = index + 1;
        }
        proof {
            assert(self.child_claims() =~= Seq::new(
                child_list(before.source()).len(),
                |i: int| before.child_claims()[i] || named(i),
            ));
            assert(self.property_claims() =~= before.property_claims());
        }
        nodes
    }

    /// # Errors
    ///
    /// Fails when the node is annotated, has no argument, or has anything beyond
    /// that one argument.
    pub fn unwrap_argument(self) -> (result: Result<&'src Value<'src>, Error>)
        requires
            self.wf(),
        ensures
            match self.source().type_annotation {
                Some(found) => result matches Err(error) && error.category()
                    == ErrorKind::Unexpected && error.at() == found.span && error.detail()
                    == "unexpected type annotation "@ + quoted(found.value@),
                None => if self.next_argument() < self.source().arguments@.len() {
                    match self.unfinished_after(self.next_argument() + 1) {
                        None => result == Ok::<&Value, Error>(
                            &self.source().arguments@[self.next_argument()],
                        ),
                        left => finish_outcome(result, left),
                    }
                } else {
                    result matches Err(error) && error.category() == ErrorKind::Missing
                        && error.at() == self.source().name.span && error.detail()
                        == "one argument is required"@
                },
            },
    {
        let mut decoder = self;
        decoder.reject_type()?;
        let value = match decoder.argument() {
            Some(value) => value,
            None => {
                return Err(
                    Error::new(
                        ErrorKind::Missing,
                        decoder.node.name.span,
                        "one argument is required".to_owned(),
                    ),
                );
            },
        };
        decoder.finish()?;
        Ok(value)
    }

    /// # Errors
    ///
    /// Fails when the node is annotated or has properties or children.
    pub fn unwrap_arguments(self) -> (result: Result<&'src [Value<'src>], Error>)
        requires
            self.wf(),
        ensures
            match self.source().type_annotation {
                Some(found) => result matches Err(error) && error.category()
                    == ErrorKind::Unexpected && error.at() == found.span && error.detail()
                    == "unexpected type annotation "@ + quoted(found.value@),
                None => match self.unfinished_after(self.source().arguments@.len() as int) {
                    None => result matches Ok(values) && values@ == self.source().arguments@.skip(
                        self.next_argument(),
                    ),
                    left => finish_outcome(result, left),
                },
            },
    {
        let mut decoder = self;
        decoder.reject_type()?;
        let values = decoder.arguments();
        decoder.finish()?;
        Ok(values)
    }

    /// Settles a decode that ran on this decoder: its error as it is, or else
    /// the value once `finish` finds nothing left over.
    ///
    /// # Errors
    ///
    /// Fails with the decode's error, or when an argument, property, or
    /// child was left unused.
    pub fn conclude<T>(&self, decoded: Result<T, Error>) -> (result: Result<T, Error>)
        requires
            self.wf(),
        ensures
            concluded(*self, decoded, result),
    {
        let value = decoded?;
        self.finish()?;
        Ok(value)
    }

    /// # Errors
    ///
    /// Fails when an argument, property, or child was left unused.
    pub fn finish(&self) -> (result: Result<(), Error>)
        requires
            self.wf(),
        ensures
            finish_outcome(result, self.unfinished_after(self.next_argument())),
    {
        let node = self.node;
        if self.arg_next < node.arguments.len() {
            let value = &node.arguments[self.arg_next];
            return Err(Error::new(ErrorKind::Unexpected, value.span, "unexpected argument".to_owned()));
        }
        let ghost claims = self.property_claims();
        let ghost unclaimed_here = unclaimed(claims);
        let mut index: usize = 0;
        while index < node.properties.len()
            invariant
                node == self.node,
                index <= node.properties@.len(),
                claims == self.property_claims(),
                unclaimed_here == unclaimed(claims),
                self.arg_next >= node.arguments@.len(),
                self.props_used@.len() >= node.properties@.len(),
                forall|j: int| 0 <= j < index ==> claims[j],
            decreases node.properties@.len() - index,
        {
            if !self.props_used.get(index) {
                let property = &node.properties[index];
                proof {
                    lemma_indices_where(index as int, unclaimed_here);
                    lemma_indices_step(index as int, unclaimed_here);
                    lemma_indices_prefix(index as int + 1, claims.len() as int, unclaimed_here);
                    if indices_where(index as int, unclaimed_here).len() > 0 {
                        let k = indices_where(index as int, unclaimed_here)[0];
                        assert(unclaimed_here(k));
                    }
                    assert(indices_where(index as int + 1, unclaimed_here) =~= seq![index as int]);
                    assert(indices_where(index as int + 1, unclaimed_here)[0] == index as int);
                    assert(first_index(claims.len() as int, unclaimed(claims)) == Some(index as int));
                }
                let mut message = "unexpected property ".to_owned();
                message.append(debug_quoted(cow_str(&property.name.value)).as_str());
                return Err(Error::new(ErrorKind::Unexpected, property.name.span, message));
            }
            index = index + 1;
        }
        proof {
            lemma_indices_where(claims.len() as int, unclaimed_here);
            if indices_where(claims.len() as int, unclaimed_here).len() > 0 {
                let k = indices_where(claims.len() as int, unclaimed_here)[0];
                assert(unclaimed_here(k));
            }
            assert(indices_where(claims.len() as int, unclaimed(claims)).len() == 0);
        }
        let nodes: &'src [Node<'src>] = node.child_nodes();
        let ghost child_claims = self.child_claims();
        let ghost child_unclaimed = unclaimed(child_claims);
        let mut index: usize = 0;
        while index < nodes.len()
            invariant
                node == self.node,
                nodes@ == child_list(*node),
                index <= nodes@.len(),
                child_claims == self.child_claims(),
                child_unclaimed == unclaimed(child_claims),
                self.arg_next >= node.arguments@.len(),
                claims == self.property_claims(),
                indices_where(claims.len() as int, unclaimed(claims)).len() == 0,
                self.children_used@.len() >= nodes@.len(),
                forall|j: int| 0 <= j < index ==> child_claims[j],
            decreases nodes@.len() - index,
        {
            if !self.children_used.get(index) {
                let child = &nodes[index];
                proof {
                    lemma_indices_where(index as int, child_unclaimed);
                    lemma_indices_step(index as int, child_unclaimed);
                    lemma_indices_prefix(index as int + 1, child_claims.len() as int, child_unclaimed);
                    if indices_where(index as int, child_unclaimed).len() > 0 {
                        let k = indices_where(index as int, child_unclaimed)[0];
                        assert(child_unclaimed(k));
                    }
                    assert(indices_where(index as int + 1, child_unclaimed) =~= seq![index as int]);
                    assert(indices_where(index as int + 1, child_unclaimed)[0] == index as int);
                    assert(first_index(child_claims.len() as int, unclaimed(child_claims)) == Some(
                        index as int,
                    ));
                }
                let mut message = "unexpected node ".to_owned();
                message.append(debug_quoted(cow_str(&child.name.value)).as_str());
                return Err(Error::new(ErrorKind::Unexpected, child.name.span, message));
            }
            index = index + 1;
        }
        proof {
            lemma_indices_where(child_claims.len() as int, child_unclaimed);
            if indices_where(child_claims.len() as int, child_unclaimed).len() > 0 {
                let k = indices_where(child_claims.len() as int, child_unclaimed)[0];
                assert(child_unclaimed(k));
            }
        }
        Ok(())
    }
}

/// Bitset sized once in `new`, keeping the first 64 flags inline and the rest
/// in a spill vector.
struct Used {
    /// Flags for indices below 64.
    inline: u64,
    /// Flags for indices from 64 upward, in words of 64.
    spill: Vec<u64>,
}

/// Whether bit `k` of `word` is set.
pub open spec fn bit_set(word: u64, k: u64) -> bool {
    (word >> k) & 1u64 == 1u64
}

impl Used {
    /// The word that holds flag `index`.
    spec fn word_of(self, index: int) -> u64 {
        if index < 64 {
            self.inline
        } else {
            self.spill@[(index - 64) / 64]
        }
    }

    /// One flag per index the set can hold.
    spec fn view(self) -> Seq<bool> {
        Seq::new(
            64 * (self.spill@.len() + 1),
            |i: int| bit_set(self.word_of(i), (i % 64) as u64),
        )
    }

    /// Creates a cleared bitset able to hold `len` flags.
    fn new(len: usize) -> (used: Self)
        ensures
            used@.len() >= len,
            forall|i: int| 0 <= i < used@.len() ==> !#[trigger] used@[i],
    {
        let words = if len > 64 {
            (len - 64) / 64 + if (len - 64) % 64 == 0 {
                0
            } else {
                1
            }
        } else {
            0
        };
        let mut spill: Vec<u64> = Vec::new();
        while spill.len() < words
            invariant
                spill@.len() <= words,
                forall|k: int| 0 <= k < spill@.len() ==> #[trigger] spill@[k] == 0u64,
            decreases words - spill@.len(),
        {
            spill.push(0);
        }
        let used = Self { inline: 0, spill };
        proof {
            assert forall|i: int| 0 <= i < used@.len() implies !#[trigger] used@[i] by {
                let k = (i % 64) as u64;
                assert(used.word_of(i) == 0u64);
                assert(k < 64);
                assert((0u64 >> k) & 1u64 == 0u64) by (bit_vector);
            }
        }
        used
    }

    /// Reports whether the flag at `index` is set.
    fn get(&self, index: usize) -> (set: bool)
        requires
            index < self@.len(),
        ensures
            set == self@[index as int],
    {
        let mask = 1u64 << ((index % 64) as u64);
        let word = if index < 64 {
            self.inline
        } else {
            self.spill[(index - 64) / 64]
        };
        let shift = (index % 64) as u64;
        proof {
            assert(shift < 64);
            assert(word & (1u64 << shift) != 0u64 <==> (word >> shift) & 1u64 == 1u64)
                by (bit_vector)
                requires
                    shift < 64,
            ;
        }
        word & mask != 0
    }

    /// Sets the flag at `index` unconditionally.
    fn set(&mut self, index: usize)
        requires
            index < old(self)@.len(),
        ensures
            final(self)@ == old(self)@.update(index as int, true),
    {
        self.claim(index);
    }

    /// Sets the flag at `index` and reports whether it was previously clear.
    fn claim(&mut self, index: usize) -> (fresh: bool)
        requires
            index < old(self)@.len(),
        ensures
            fresh == !old(self)@[index as int],
            final(self)@ == old(self)@.update(index as int, true),
    {
        let shift = (index % 64) as u64;
        let mask = 1u64 << shift;
        let ghost before = *self;
        let word = if index < 64 {
            self.inline
        } else {
            self.spill[(index - 64) / 64]
        };
        let fresh = word & mask == 0;
        let updated = word | mask;
        proof {
            assert(shift < 64);
            assert(word & (1u64 << shift) == 0u64 <==> (word >> shift) & 1u64 != 1u64)
                by (bit_vector)
                requires
                    shift < 64,
            ;
            assert forall|k: u64| k < 64 implies #[trigger] bit_set(updated, k) == (k == shift
                || bit_set(word, k)) by {
                assert(((word | (1u64 << shift)) >> k) & 1u64 == 1u64 <==> (k == shift || (word
                    >> k) & 1u64 == 1u64)) by (bit_vector)
                    requires
                        shift < 64,
                        k < 64,
                ;
            }
        }
        if index < 64 {
            self.inline = updated;
        } else {
            self.spill.set((index - 64) / 64, updated);
        }
        proof {
            assert forall|i: int| 0 <= i < self@.len() implies #[trigger] self@[i] == before@.update(
                index as int,
                true,
            )[i] by {
                let k = (i % 64) as u64;
                assert(k < 64);
                if i < 64 && index < 64 || i >= 64 && index >= 64 && (i - 64) / 64 == (index - 64)
                    / 64 {
                    assert(self.word_of(i) == updated);
                    assert(before.word_of(i) == word);
                    assert((i == index) == (k == shift));
                } else {
                    assert(self.word_of(i) == before.word_of(i));
                    assert(i != index);
                }
            }
            assert(self@ =~= before@.update(index as int, true));
        }
        fresh
    }
}

pub trait DecodeScalar: Sized {
    /// # Errors
    ///
    /// Fails when the value carries a type annotation `Self` does not accept.
    fn type_check(value: &Value<'_>) -> (result: Result<(), Error>)
        default_ensures
            expected_type(*value, Seq::empty(), result),
    {
        value.reject_type()
    }

    /// # Errors
    ///
    /// Fails when the value does not fit `Self`.
    fn decode(value: &Value<'_>) -> (result: Result<Self, Error>);
}

/// Why the digits of an integer literal do not give a number of the target
/// type.
#[derive(Clone, Copy, Debug, PartialEq, Eq, Structural)]
pub enum IntegerFault {
    /// There are no characters at all.
    Empty,
    /// A character is not a digit of the radix, or a sign stands alone.
    InvalidDigit,
    /// The number is above the largest value of the type.
    TooLarge,
    /// The number is below the smallest value of the type.
    TooSmall,
}

/// The text reported for each integer fault.
pub open spec fn fault_text(fault: IntegerFault) -> Seq<char> {
    match fault {
        IntegerFault::Empty => "cannot parse integer from empty string"@,
        IntegerFault::InvalidDigit => "invalid digit found in string"@,
        IntegerFault::TooLarge => "number too large to fit in target type"@,
        IntegerFault::TooSmall => "number too small to fit in target type"@,
    }
}

impl IntegerFault {
    pub fn message(self) -> (text: &'static str)
        ensures
            text@ == fault_text(self),
    {
        match self {
            IntegerFault::Empty => "cannot parse integer from empty string",
            IntegerFault::InvalidDigit => "invalid digit found in string",
            IntegerFault::TooLarge => "number too large to fit in target type",
            IntegerFault::TooSmall => "number too small to fit in target type",
        }
    }
}

/// Reads `digits` from left to right in `base`, failing at the first
/// character that is not a digit or at the first digit that takes the value
/// past `bound`.
pub open spec fn scan_digits(digits: Seq<char>, base: nat, bound: nat) -> Result<nat, IntegerFault>
    decreases digits.len(),
{
    if digits.len() == 0 {
        Ok(0)
    } else {
        match scan_digits(digits.drop_last(), base, bound) {
            Ok(value) => match digit_value(digits.last()) {
                Some(digit) => if digit >= base {
                    Err(IntegerFault::InvalidDigit)
                } else if value * base + digit <= bound {
                    Ok(value * base + digit)
                } else {
                    Err(IntegerFault::TooLarge)
                },
                None => Err(IntegerFault::InvalidDigit),
            },
            Err(fault) => Err(fault),
        }
    }
}

/// The integer that `text` denotes in `base` for a type whose values run
/// from `-min_magnitude` (or zero, when it is not `signed`) to `max`: an
/// optional sign, then digits.
pub open spec fn integer_value(
    text: Seq<char>,
    base: nat,
    signed: bool,
    max: nat,
    min_magnitude: nat,
) -> Result<int, IntegerFault> {
    if text.len() == 0 {
        Err(IntegerFault::Empty)
    } else if (text[0] == '+' || text[0] == '-') && text.len() == 1 {
        Err(IntegerFault::InvalidDigit)
    } else if text[0] == '+' {
        match scan_digits(text.drop_first(), base, max) {
            Ok(value) => Ok(value as int),
            Err(fault) => Err(fault),
        }
    } else if text[0] == '-' && signed {
        match scan_digits(text.drop_first(), base, min_magnitude) {
            Ok(value) => Ok(-(value as int)),
            Err(IntegerFault::TooLarge) => Err(IntegerFault::TooSmall),
            Err(fault) => Err(fault),
        }
    } else {
        match scan_digits(text, base, max) {
            Ok(value) => Ok(value as int),
            Err(fault) => Err(fault),
        }
    }
}

/// The value of a digit of `radix`, if `c` is one.
fn digit_in(c: char, radix: Radix) -> (digit: Option<u128>)
    ensures
        match digit_value(c) {
            Some(value) => if value < radix_base(radix) {
                digit == Some(value as u128)
            } else {
                digit is None
            },
            None => digit is None,
        },
{
    let value: u32 = if '0' <= c && c <= '9' {
        (c as u32) - ('0' as u32)
    } else if 'a' <= c && c <= 'z' {
        (c as u32) - ('a' as u32) + 10
    } else if 'A' <= c && c <= 'Z' {
        (c as u32) - ('A' as u32) + 10
    } else {
        return None;
    };
    if value < u32::from(radix) {
        Some(value as u128)
    } else {
        None
    }
}

/// Reads the integer `text` denotes in `radix` for a type whose values run
/// from `-min_magnitude` (or zero) to `max`, as a sign and a magnitude.
pub fn read_integer(text: &str, radix: Radix, signed: bool, max: u128, min_magnitude: u128) -> (result:
    Result<(bool, u128), IntegerFault>)
    ensures
        match integer_value(text@, radix_base(radix), signed, max as nat, min_magnitude as nat) {
            Ok(value) => result matches Ok((negative, magnitude)) && value == if negative {
                -(magnitude as int)
            } else {
                magnitude as int
            },
            Err(fault) => result == Err::<(bool, u128), IntegerFault>(fault),
        },
{
    let count = text.unicode_len();
    if count == 0 {
        return Err(IntegerFault::Empty);
    }
    let first = text.get_char(0);
    if (first == '+' || first == '-') && count == 1 {
        return Err(IntegerFault::InvalidDigit);
    }
    let (start, negative): (usize, bool) = if first == '+' {
        (1, false)
    } else if first == '-' && signed {
        (1, true)
    } else {
        (0, false)
    };
    let bound = if negative {
        min_magnitude
    } else {
        max
    };
    let base: u128 = u32::from(radix) as u128;
    let ghost digits = text@.subrange(start as int, count as int);
    proof {
        if start == 1 {
            assert(digits =~= text@.drop_first());
        } else {
            assert(digits =~= text@);
        }
    }
    let ghost outcome = match scan_digits(digits, base as nat, bound as nat) {
        Ok(read) => Ok(
            if negative {
                -(read as int)
            } else {
                read as int
            },
        ),
        Err(IntegerFault::TooLarge) => Err(
            if negative {
                IntegerFault::TooSmall
            } else {
                IntegerFault::TooLarge
            },
        ),
        Err(fault) => Err(fault),
    };
    assert(integer_value(text@, base as nat, signed, max as nat, min_magnitude as nat) == outcome);
    let mut value: u128 = 0;
    let mut index: usize = start;
    while index < count
        invariant
            count == text@.len(),
            start <= index <= count,
            digits == text@.subrange(start as int, count as int),
            base == radix_base(radix),
            bound == if negative {
                min_magnitude
            } else {
                max
            },
            integer_value(text@, base as nat, signed, max as nat, min_magnitude as nat) == outcome,
            outcome == match scan_digits(digits, base as nat, bound as nat) {
                Ok(read) => Ok(
                    if negative {
                        -(read as int)
                    } else {
                        read as int
                    },
                ),
                Err(IntegerFault::TooLarge) => Err(
                    if negative {
                        IntegerFault::TooSmall
                    } else {
                        IntegerFault::TooLarge
                    },
                ),
                Err(fault) => Err(fault),
            },
            scan_digits(text@.subrange(start as int, index as int), base as nat, bound as nat) == Ok::<
                nat,
                IntegerFault,
            >(value as nat),
            scan_digits(digits, base as nat, bound as nat) is Ok ==> scan_digits(
                text@.subrange(start as int, index as int),
                base as nat,
                bound as nat,
            ) is Ok,
        decreases count - index,
    {
        let c = text.get_char(index);
        let ghost before = text@.subrange(start as int, index as int);
        let ghost after = text@.subrange(start as int, index + 1);
        proof {
            assert(after.drop_last() =~= before);
            assert(after.last() == c);
            lemma_scan_prefix(digits, (index + 1 - start) as int, base as nat, bound as nat);
            assert(digits.take((index + 1 - start) as int) =~= after);
        }
        let digit = match digit_in(c, radix) {
            Some(digit) => digit,
            None => {
                proof {
                    lemma_scan_fails(digits, (index + 1 - start) as int, base as nat, bound as nat);
                }
                return Err(IntegerFault::InvalidDigit);
            },
        };
        let next = match value.checked_mul(base) {
            Some(scaled) => match scaled.checked_add(digit) {
                Some(next) => if next <= bound {
                    Some(next)
                } else {
                    None
                },
                None => None,
            },
            None => None,
        };
        match next {
            Some(next) => {
                value = next;
            },
            None => {
                proof {
                    lemma_scan_fails(digits, (index + 1 - start) as int, base as nat, bound as nat);
                }
                return Err(
                    if negative {
                        IntegerFault::TooSmall
                    } else {
                        IntegerFault::TooLarge
                    },
                );
            },
        }
        index = index + 1;
    }
    proof {
        assert(text@.subrange(start as int, count as int) =~= digits);
    }
    Ok((negative, value))
}

/// A failure while reading a prefix of the digits is the failure of the whole.
proof fn lemma_scan_fails(digits: Seq<char>, k: int, base: nat, bound: nat)
    requires
        0 <= k <= digits.len(),
        scan_digits(digits.take(k), base, bound) is Err,
    ensures
        scan_digits(digits, base, bound) == scan_digits(digits.take(k), base, bound),
    decreases digits.len() - k,
{
    if k < digits.len() {
        assert(digits.take(k + 1).drop_last() =~= digits.take(k));
        assert(scan_digits(digits.take(k + 1), base, bound) == scan_digits(digits.take(k), base, bound));
        lemma_scan_fails(digits, k + 1, base, bound);
    } else {
        assert(digits.take(k) =~= digits);
    }
}

/// When the whole of the digits reads, every prefix reads.
proof fn lemma_scan_prefix(digits: Seq<char>, k: int, base: nat, bound: nat)
    requires
        0 <= k <= digits.len(),
    ensures
        scan_digits(digits, base, bound) is Ok ==> scan_digits(digits.take(k), base, bound) is Ok,
{
    if scan_digits(digits.take(k), base, bound) is Err {
        lemma_scan_fails(digits, k, base, bound);
    }
}

/// The decimal notation of `value`: a minus sign before the digits of its
/// magnitude when it is negative.
pub open spec fn signed_decimal_text(value: int) -> Seq<char> {
    if value < 0 {
        seq!['-'] + decimal_text((-value) as nat)
    } else {
        decimal_text(value as nat)
    }
}

/// Decimal notation starts with a digit and reads back, in base ten, as the
/// number it was written for whenever that number is within `bound`.
proof fn lemma_scan_decimal(value: nat, bound: nat)
    requires
        value <= bound,
    ensures
        decimal_text(value).len() >= 1,
        '0' <= decimal_text(value)[0] <= '9',
        scan_digits(decimal_text(value), 10, bound) == Ok::<nat, IntegerFault>(value),
    decreases value,
{
    let text = decimal_text(value);
    if value < 10 {
        assert(text.drop_last() =~= Seq::<char>::empty());
        assert(scan_digits(text.drop_last(), 10, bound) == Ok::<nat, IntegerFault>(0));
        assert(digit_value(text.last()) == Some(value));
    } else {
        lemma_scan_decimal(value / 10, bound);
        assert(text.drop_last() =~= decimal_text(value / 10));
        assert(text[0] == decimal_text(value / 10)[0]);
        assert(digit_value(text.last()) == Some(value % 10));
        assert((value / 10) * 10 + value % 10 == value);
        assert(scan_digits(text.drop_last(), 10, bound) == Ok::<nat, IntegerFault>(value / 10));
    }
}

/// Whatever integer a type holds, its decimal notation reads back as that
/// integer: a value from `-min_magnitude` (only when the type is `signed`) up
/// to `max`, written by `signed_decimal_text`, decodes to itself in base ten.
pub proof fn lemma_decimal_round_trip(value: int, signed: bool, max: nat, min_magnitude: nat)
    requires
        value <= max,
        value < 0 ==> signed && -value <= min_magnitude,
    ensures
        integer_value(signed_decimal_text(value), 10, signed, max, min_magnitude) == Ok::<
            int,
            IntegerFault,
        >(value),
{
    if value < 0 {
        let magnitude = (-value) as nat;
        lemma_scan_decimal(magnitude, min_magnitude);
        let text = signed_decimal_text(value);
        assert(text.drop_first() =~= decimal_text(magnitude));
    } else {
        lemma_scan_decimal(value as nat, max);
    }
}

/// Whether `result` is what decoding `value` as an integer type named `name`,
/// with values from `-min_magnitude` (or zero) to `max`, gives.
pub open spec fn integer_decoded<'src>(
    value: Value<'src>,
    name: Seq<char>,
    signed: bool,
    max: nat,
    min_magnitude: nat,
    result: Result<int, Error>,
) -> bool {
    match value.type_annotation {
        Some(found) if found.value@ != name => result matches Err(error) && error.category()
            == ErrorKind::Type && error.at() == found.span && error.detail() == "expected type "@
            + quoted(name) + " but found "@ + quoted(found.value@),
        _ => match value.literal {
            Literal::Integer(number) => match integer_value(
                number.digits@,
                radix_base(number.radix),
                signed,
                max,
                min_magnitude,
            ) {
                Ok(read) => result == Ok::<int, Error>(read),
                Err(fault) => result matches Err(error) && error.category() == ErrorKind::Conversion
                    && error.at() == value.span && error.detail() == fault_text(fault),
            },
            _ => result matches Err(error) && value.mismatch("integer"@, error),
        },
    }
}

/// Checks the annotation of `value` against `name` and reads its integer
/// literal for a type with values from `-min_magnitude` (or zero) to `max`.
fn integer_scalar(value: &Value<'_>, name: &str, signed: bool, max: u128, min_magnitude: u128) -> (result:
    Result<(bool, u128), Error>)
    ensures
        integer_decoded(
            *value,
            name@,
            signed,
            max as nat,
            min_magnitude as nat,
            match result {
                Ok((negative, magnitude)) => Ok(
                    if negative {
                        -(magnitude as int)
                    } else {
                        magnitude as int
                    },
                ),
                Err(error) => Err(error),
            },
        ),
        result matches Ok((negative, magnitude)) ==> if negative {
            magnitude <= min_magnitude
        } else {
            magnitude <= max
        },
{
    check_type(value, name)?;
    match &value.literal {
        Literal::Integer(number) => {
            match read_integer(cow_str(&number.digits), number.radix, signed, max, min_magnitude) {
                Ok(parts) => {
                    proof {
                        lemma_integer_bound(number.digits@, radix_base(number.radix), signed, max as nat, min_magnitude as nat);
                    }
                    Ok(parts)
                },
                Err(fault) => Err(Error::conversion(value.span, fault.message().to_owned())),
            }
        },
        _ => Err(value.type_mismatch("integer")),
    }
}

/// A value that `scan_digits` reads never exceeds the bound.
proof fn lemma_scan_bound(digits: Seq<char>, base: nat, bound: nat)
    ensures
        scan_digits(digits, base, bound) matches Ok(value) ==> value <= bound,
    decreases digits.len(),
{
    if digits.len() > 0 {
        lemma_scan_bound(digits.drop_last(), base, bound);
    }
}

/// A read integer lies in the range of its type.
proof fn lemma_integer_bound(text: Seq<char>, base: nat, signed: bool, max: nat, min_magnitude: nat)
    ensures
        integer_value(text, base, signed, max, min_magnitude) matches Ok(value) ==> -min_magnitude
            <= value <= max,
{
    if text.len() > 0 {
        lemma_scan_bound(text.drop_first(), base, max);
        lemma_scan_bound(text.drop_first(), base, min_magnitude);
        lemma_scan_bound(text, base, max);
    }
}


impl DecodeScalar for i8 {
    fn type_check(value: &Value<'_>) -> (result: Result<(), Error>)
        ensures
            expected_type(*value, seq!["i8"@], result),
    {
        check_type(value, "i8")
    }

    fn decode(value: &Value<'_>) -> (result: Result<Self, Error>)
        ensures
            integer_decoded(
                *value,
                "i8"@,
                true,
                127,
                128,
                match result {
                    Ok(number) => Ok(number as int),
                    Err(error) => Err(error),
                },
            ),
    {
        let (negative, magnitude) = integer_scalar(value, "i8", true, 127u128, 128u128)?;
        Ok(signed_from(negative, magnitude) as i8)
    }
}

impl DecodeScalar for u8 {
    fn type_check(value: &Value<'_>) -> (result: Result<(), Error>)
        ensures
            expected_type(*value, seq!["u8"@], result),
    {
        check_type(value, "u8")
    }

    fn decode(value: &Value<'_>) -> (result: Result<Self, Error>)
        ensures
            integer_decoded(
                *value,
                "u8"@,
                false,
                255,
                0,
                match result {
                    Ok(number) => Ok(number as int),
                    Err(error) => Err(error),
                },
            ),
    {
        let (negative, magnitude) = integer_scalar(value, "u8", false, 255u128, 0u128)?;
        Ok(magnitude as u8)
    }
}

impl DecodeScalar for i16 {
    fn type_check(value: &Value<'_>) -> (result: Result<(), Error>)
        ensures
            expected_type(*value, seq!["i16"@], result),
    {
        check_type(value, "i16")
    }

    fn decode(value: &Value<'_>) -> (result: Result<Self, Error>)
        ensures
            integer_decoded(
                *value,
                "i16"@,
                true,
                32767,
                32768,
                match result {
                    Ok(number) => Ok(number as int),
                    Err(error) => Err(error),
                },
            ),
    {
        let (negative, magnitude) = integer_scalar(value, "i16", true, 32767u128, 32768u128)?;
        Ok(signed_from(negative, magnitude) as i16)
    }
}

impl DecodeScalar for u16 {
    fn type_check(value: &Value<'_>) -> (result: Result<(), Error>)
        ensures
            expected_type(*value, seq!["u16"@], result),
    {
        check_type(value, "u16")
    }

    fn decode(value: &Value<'_>) -> (result: Result<Self, Error>)
        ensures
            integer_decoded(
                *value,
                "u16"@,
                false,
                65535,
                0,
                match result {
                    Ok(number) => Ok(number as int),
                    Err(error) => Err(error),
                },
            ),
    {
        let (negative, magnitude) = integer_scalar(value, "u16", false, 65535u128, 0u128)?;
        Ok(magnitude as u16)
    }
}

impl DecodeScalar for i32 {
    fn type_check(value: &Value<'_>) -> (result: Result<(), Error>)
        ensures
            expected_type(*value, seq!["i32"@], result),
    {
        check_type(value, "i32")
    }

    fn decode(value: &Value<'_>) -> (result: Result<Self, Error>)
        ensures
            integer_decoded(
                *value,
                "i32"@,
                true,
                2147483647,
                2147483648,
                match result {
                    Ok(number) => Ok(number as int),
                    Err(error) => Err(error),
                },
            ),
    {
        let (negative, magnitude) = integer_scalar(value, "i32", true, 2147483647u128, 2147483648u128)?;
        Ok(signed_from(negative, magnitude) as i32)
    }
}

impl DecodeScalar for u32 {
    fn type_check(value: &Value<'_>) -> (result: Result<(), Error>)
        ensures
            expected_type(*value, seq!["u32"@], result),
    {
        check_type(value, "u32")
    }

    fn decode(value: &Value<'_>) -> (result: Result<Self, Error>)
        ensures
            integer_decoded(
                *value,
                "u32"@,
                false,
                4294967295,
                0,
                match result {
                    Ok(number) => Ok(number as int),
                    Err(error) => Err(error),
                },
            ),
    {
        let (negative, magnitude) = integer_scalar(value, "u32", false, 4294967295u128, 0u128)?;
        Ok(magnitude as u32)
    }
}

impl DecodeScalar for i64 {
    fn type_check(value: &Value<'_>) -> (result: Result<(), Error>)
        ensures
            expected_type(*value, seq!["i64"@], result),
    {
        check_type(value, "i64")
    }

    fn decode(value: &Value<'_>) -> (result: Result<Self, Error>)
        ensures
            integer_decoded(
                *value,
                "i64"@,
                true,
                9223372036854775807,
                9223372036854775808,
                match result {
                    Ok(number) => Ok(number as int),
                    Err(error) => Err(error),
                },
            ),
    {
        let (negative, magnitude) = integer_scalar(value, "i64", true, 9223372036854775807u128, 9223372036854775808u128)?;
        Ok(signed_from(negative, magnitude) as i64)
    }
}

impl DecodeScalar for u64 {
    fn type_check(value: &Value<'_>) -> (result: Result<(), Error>)
        ensures
            expected_type(*value, seq!["u64"@], result),
    {
        check_type(value, "u64")
    }

    fn decode(value: &Value<'_>) -> (result: Result<Self, Error>)
        ensures
            integer_decoded(
                *value,
                "u64"@,
                false,
                18446744073709551615,
                0,
                match result {
                    Ok(number) => Ok(number as int),
                    Err(error) => Err(error),
                },
            ),
    {
        let (negative, magnitude) = integer_scalar(value, "u64", false, 18446744073709551615u128, 0u128)?;
        Ok(magnitude as u64)
    }
}

impl DecodeScalar for i128 {
    fn type_check(value: &Value<'_>) -> (result: Result<(), Error>)
        ensures
            expected_type(*value, seq!["i128"@], result),
    {
        check_type(value, "i128")
    }

    fn decode(value: &Value<'_>) -> (result: Result<Self, Error>)
        ensures
            integer_decoded(
                *value,
                "i128"@,
                true,
                170141183460469231731687303715884105727,
                170141183460469231731687303715884105728,
                match result {
                    Ok(number) => Ok(number as int),
                    Err(error) => Err(error),
                },
            ),
    {
        let (negative, magnitude) = integer_scalar(value, "i128", true, 170141183460469231731687303715884105727u128, 170141183460469231731687303715884105728u128)?;
        Ok(signed_from(negative, magnitude) as i128)
    }
}

impl DecodeScalar for u128 {
    fn type_check(value: &Value<'_>) -> (result: Result<(), Error>)
        ensures
            expected_type(*value, seq!["u128"@], result),
    {
        check_type(value, "u128")
    }

    fn decode(value: &Value<'_>) -> (result: Result<Self, Error>)
        ensures
            integer_decoded(
                *value,
                "u128"@,
                false,
                340282366920938463463374607431768211455,
                0,
                match result {
                    Ok(number) => Ok(number as int),
                    Err(error) => Err(error),
                },
            ),
    {
        let (negative, magnitude) = integer_scalar(value, "u128", false, 340282366920938463463374607431768211455u128, 0u128)?;
        Ok(magnitude as u128)
    }
}

impl DecodeScalar for isize {
    fn type_check(value: &Value<'_>) -> (result: Result<(), Error>)
        ensures
            expected_type(*value, seq!["isize"@], result),
    {
        check_type(value, "isize")
    }

    fn decode(value: &Value<'_>) -> (result: Result<Self, Error>)
        ensures
            integer_decoded(
                *value,
                "isize"@,
                true,
                isize::MAX as nat,
                (isize::MAX as nat) + 1,
                match result {
                    Ok(number) => Ok(number as int),
                    Err(error) => Err(error),
                },
            ),
    {
        let (negative, magnitude) = integer_scalar(value, "isize", true, isize::MAX as u128, (isize::MAX as u128) + 1)?;
        Ok(signed_from(negative, magnitude) as isize)
    }
}

impl DecodeScalar for usize {
    fn type_check(value: &Value<'_>) -> (result: Result<(), Error>)
        ensures
            expected_type(*value, seq!["usize"@], result),
    {
        check_type(value, "usize")
    }

    fn decode(value: &Value<'_>) -> (result: Result<Self, Error>)
        ensures
            integer_decoded(
                *value,
                "usize"@,
                false,
                usize::MAX as nat,
                0,
                match result {
                    Ok(number) => Ok(number as int),
                    Err(error) => Err(error),
                },
            ),
    {
        let (negative, magnitude) = integer_scalar(value, "usize", false, usize::MAX as u128, 0)?;
        Ok(magnitude as usize)
    }
}

/// The signed number with the given sign and magnitude.
fn signed_from(negative: bool, magnitude: u128) -> (number: i128)
    requires
        negative ==> magnitude <= 0x8000_0000_0000_0000_0000_0000_0000_0000u128,
        !negative ==> magnitude <= 0x7fff_ffff_ffff_ffff_ffff_ffff_ffff_ffffu128,
    ensures
        number == if negative {
            -(magnitude as int)
        } else {
            magnitude as int
        },
{
    if !negative {
        magnitude as i128
    } else if magnitude == 0x8000_0000_0000_0000_0000_0000_0000_0000u128 {
        i128::MIN
    } else {
        -(magnitude as i128)
    }
}

/// Whether `result` is what checking the annotation of `value` against the
/// type names `accepted` gives: success when it has none or one of them.
pub open spec fn expected_type<'src>(
    value: Value<'src>,
    accepted: Seq<Seq<char>>,
    result: Result<(), Error>,
) -> bool {
    match value.type_annotation {
        None => result is Ok,
        Some(found) => if accepted.contains(found.value@) {
            result is Ok
        } else {
            result matches Err(error) && error.category() == ErrorKind::Type && error.at()
                == found.span && error.detail() == if accepted.len() == 1 {
                "expected type "@ + quoted(accepted[0]) + " but found "@ + quoted(found.value@)
            } else {
                no_annotation_message(found.value@)
            }
        },
    }
}

/// Checks the annotation of `value` against the one type name `name`.
fn check_type(value: &Value<'_>, name: &str) -> (result: Result<(), Error>)
    ensures
        expected_type(*value, seq![name@], result),
{
    let names = [name];
    proof {
        assert(names@ =~= seq![name]);
        if value.type_annotation is Some {
            let found = value.type_annotation->0;
            if found.value@ != name@ {
                assert(!accepted_name(names@, found.value@));
                assert(!seq![name@].contains(found.value@));
            } else {
                assert(accepted_name(names@, found.value@)) by {
                    assert(names@[0]@ == found.value@);
                }
                assert(seq![name@][0] == found.value@);
            }
        }
    }
    value.expect_type(names.as_slice())
}

/// Checks the annotation of `value` against the two type names `first` and
/// `second`.
fn check_types(value: &Value<'_>, first: &str, second: &str) -> (result: Result<(), Error>)
    ensures
        expected_type(*value, seq![first@, second@], result),
{
    let names = [first, second];
    proof {
        assert(names@ =~= seq![first, second]);
        if value.type_annotation is Some {
            let found = value.type_annotation->0;
            if found.value@ == first@ {
                assert(accepted_name(names@, found.value@)) by {
                    assert(names@[0]@ == found.value@);
                }
                assert(seq![first@, second@][0] == found.value@);
            } else if found.value@ == second@ {
                assert(accepted_name(names@, found.value@)) by {
                    assert(names@[1]@ == found.value@);
                }
                assert(seq![first@, second@][1] == found.value@);
            } else {
                assert(!accepted_name(names@, found.value@));
                assert(!seq![first@, second@].contains(found.value@));
            }
        }
    }
    value.expect_type(names.as_slice())
}

/// Whether `result` is what decoding `value` as text gives when its
/// annotation may be one of `accepted`.
pub open spec fn text_decoded<'src>(value: Value<'src>, accepted: Seq<Seq<char>>, result: Result<Seq<char>, Error>) -> bool {
    match value.type_annotation {
        Some(found) if !accepted.contains(found.value@) => expected_type(value, accepted, match result {
            Ok(_) => Ok(()),
            Err(error) => Err(error),
        }) && result is Err,
        _ => match value.literal {
            Literal::String(text) => result == Ok::<Seq<char>, Error>(text@),
            _ => result matches Err(error) && value.mismatch("string"@, error),
        },
    }
}

impl DecodeScalar for String {
    fn type_check(value: &Value<'_>) -> (result: Result<(), Error>)
        ensures
            expected_type(*value, seq!["str"@, "string"@], result),
    {
        check_types(value, "str", "string")
    }

    fn decode(value: &Value<'_>) -> (result: Result<Self, Error>)
        ensures
            text_decoded(
                *value,
                seq!["str"@, "string"@],
                match result {
                    Ok(text) => Ok(text@),
                    Err(error) => Err(error),
                },
            ),
    {
        Self::type_check(value)?;
        let text = value.expect_string()?;
        Ok(text.to_owned())
    }
}

impl DecodeScalar for bool {
    fn decode(value: &Value<'_>) -> (result: Result<Self, Error>)
        ensures
            match value.type_annotation {
                Some(found) => expected_type(*value, Seq::empty(), match result {
                    Ok(_) => Ok(()),
                    Err(error) => Err(error),
                }) && result is Err,
                None => match value.literal {
                    Literal::Bool(flag) => result == Ok::<bool, Error>(flag),
                    _ => result matches Err(error) && value.mismatch("boolean"@, error),
                },
            },
    {
        Self::type_check(value)?;
        match value.literal {
            Literal::Bool(flag) => Ok(flag),
            _ => Err(value.type_mismatch("boolean")),
        }
    }
}

#[verifier::external_type_specification]
#[verifier::external_body]
pub struct ExPathBuf(std::path::PathBuf);

/// The path `PathBuf::from` builds from `text`.
pub uninterp spec fn path_from_text(text: Seq<char>) -> PathBuf;

/// `PathBuf::from` on a string slice; the result is the path named by the
/// text, which the contract names without describing.
#[verifier::external_body]
fn path_from(text: &str) -> (path: PathBuf)
    ensures
        path == path_from_text(text@),
{
    PathBuf::from(text)
}

impl DecodeScalar for PathBuf {
    fn type_check(value: &Value<'_>) -> (result: Result<(), Error>)
        ensures
            expected_type(*value, seq!["str"@, "string"@], result),
    {
        check_types(value, "str", "string")
    }

    fn decode(value: &Value<'_>) -> (result: Result<Self, Error>)
        ensures
            match value.type_annotation {
                Some(found) if !seq!["str"@, "string"@].contains(found.value@) => expected_type(
                    *value,
                    seq!["str"@, "string"@],
                    match result {
                        Ok(_) => Ok(()),
                        Err(error) => Err(error),
                    },
                ) && result is Err,
                _ => match value.literal {
                    Literal::String(text) => result == Ok::<PathBuf, Error>(path_from_text(text@)),
                    _ => result matches Err(error) && value.mismatch("string"@, error),
                },
            },
    {
        Self::type_check(value)?;
        let text = value.expect_string()?;
        Ok(path_from(text))
    }
}

impl<Inner: DecodeScalar> DecodeScalar for Option<Inner> {
    fn type_check(value: &Value<'_>) -> (result: Result<(), Error>)
        ensures
            call_ensures(Inner::type_check, (value,), result),
    {
        Inner::type_check(value)
    }

    fn decode(value: &Value<'_>) -> (result: Result<Self, Error>)
        ensures
            value.literal is Null ==> exists|checked: Result<(), Error>|
                call_ensures(Inner::type_check, (value,), checked) && match checked {
                    Ok(_) => result == Ok::<Self, Error>(None),
                    Err(error) => result == Err::<Self, Error>(error),
                },
            !(value.literal is Null) ==> exists|inner: Result<Inner, Error>|
                call_ensures(Inner::decode, (value,), inner) && match inner {
                    Ok(decoded) => result == Ok::<Self, Error>(Some(decoded)),
                    Err(error) => result == Err::<Self, Error>(error),
                },
    {
        if let Literal::Null = value.literal {
            match Inner::type_check(value) {
                Ok(()) => {},
                Err(error) => {
                    return Err(error);
                },
            }
            return Ok(None);
        }
        match Inner::decode(value) {
            Ok(inner) => Ok(Some(inner)),
            Err(error) => Err(error),
        }
    }
}

impl<Inner: Decode> Decode for Box<Inner> {
    fn decode(decoder: &mut Decoder<'_>) -> (result: Result<Self, Error>) {
        match Inner::decode(decoder) {
            Ok(inner) => Ok(Box::new(inner)),
            Err(error) => Err(error),
        }
    }
}

impl<Inner: DecodeScalar> DecodeScalar for Box<Inner> {
    fn type_check(value: &Value<'_>) -> (result: Result<(), Error>)
        ensures
            call_ensures(Inner::type_check, (value,), result),
    {
        Inner::type_check(value)
    }

    fn decode(value: &Value<'_>) -> (result: Result<Self, Error>)
        ensures
            exists|inner: Result<Inner, Error>|
                call_ensures(Inner::decode, (value,), inner) && match inner {
                    Ok(decoded) => result matches Ok(boxed) && *boxed == decoded,
                    Err(error) => result == Err::<Self, Error>(error),
                },
    {
        match Inner::decode(value) {
            Ok(inner) => Ok(Box::new(inner)),
            Err(error) => Err(error),
        }
    }
}

} // verus!
