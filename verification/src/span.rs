//! Byte ranges into the source text, and values tagged with the range they
//! came from.
use std::borrow::Cow;

use vstd::math::{max, min};
use vstd::prelude::*;

use crate::text::{cow_str, is_boundary, text_len};

verus! {

/// A half-open byte range `offset .. offset + length` of the source text.
#[derive(Clone, Copy, Debug, Default, PartialEq, Eq)]
pub struct Span {
    /// Byte offset where the range starts.
    offset: usize,
    /// Number of bytes covered by the range.
    length: usize,
}

impl Span {
    /// The first byte covered by the range.
    pub closed spec fn start_at(self) -> nat {
        self.offset as nat
    }

    /// The number of bytes covered by the range.
    pub closed spec fn size(self) -> nat {
        self.length as nat
    }

    /// The byte offset just past the range.
    pub open spec fn stop_at(self) -> nat {
        self.start_at() + self.size()
    }

    pub fn new(offset: usize, length: usize) -> (span: Self)
        ensures
            span.start_at() == offset,
            span.size() == length,
    {
        Self { offset, length }
    }

    pub fn offset(self) -> (offset: usize)
        ensures
            offset == self.start_at(),
    {
        self.offset
    }

    pub fn len(self) -> (length: usize)
        ensures
            length == self.size(),
    {
        self.length
    }

    pub fn is_empty(self) -> (empty: bool)
        ensures
            empty == (self.size() == 0),
    {
        self.length == 0
    }

    pub fn end(self) -> (end: usize)
        requires
            self.stop_at() <= usize::MAX,
        ensures
            end == self.stop_at(),
    {
        self.offset + self.length
    }

    /// The smallest range covering both `self` and `other`.
    pub closed spec fn joined(self, other: Self) -> Self {
        let start = min(self.offset as int, other.offset as int);
        let stop = max(self.stop_at() as int, other.stop_at() as int);
        Span { offset: start as usize, length: (stop - start) as usize }
    }

    /// Whether `self` covers every byte of `other`.
    pub open spec fn covers(self, other: Self) -> bool {
        self.start_at() <= other.start_at() && other.stop_at() <= self.stop_at()
    }

    pub fn join(self, other: Self) -> (joined: Self)
        requires
            self.stop_at() <= usize::MAX,
            other.stop_at() <= usize::MAX,
        ensures
            joined == self.joined(other),
            joined.start_at() == min(self.start_at() as int, other.start_at() as int),
            joined.stop_at() == max(self.stop_at() as int, other.stop_at() as int),
    {
        let offset = if self.offset <= other.offset {
            self.offset
        } else {
            other.offset
        };
        let self_end = self.end();
        let other_end = other.end();
        let end = if self_end >= other_end {
            self_end
        } else {
            other_end
        };
        Self::new(offset, end - offset)
    }
}

/// Joining two ranges yields the least range covering both; the order of the
/// two does not matter, and joining three ranges does not depend on grouping.
pub proof fn lemma_join_laws(a: Span, b: Span, c: Span)
    requires
        a.stop_at() <= usize::MAX,
        b.stop_at() <= usize::MAX,
        c.stop_at() <= usize::MAX,
    ensures
        a.joined(b) == b.joined(a),
        a.joined(b).covers(a),
        a.joined(b).covers(b),
        a.joined(b).joined(c) == a.joined(b.joined(c)),
        forall|d: Span| d.covers(a) && d.covers(b) ==> d.covers(#[trigger] a.joined(b)),
        a.joined(a) == a,
{
}

/// Whether `span` lies within `text` and starts and ends between characters.
pub open spec fn span_within(span: Span, text: Seq<char>) -> bool {
    &&& span.stop_at() <= text_len(text)
    &&& is_boundary(text, span.start_at() as int)
    &&& is_boundary(text, span.stop_at() as int)
}

/// Joining two ranges that lie in `text` gives a range that lies in it too.
pub proof fn lemma_join_within(a: Span, b: Span, text: Seq<char>)
    requires
        span_within(a, text),
        span_within(b, text),
    ensures
        a.stop_at() <= usize::MAX ==> b.stop_at() <= usize::MAX ==> span_within(a.joined(b), text),
{
}

/// A value paired with the source range it was read from.
#[derive(Clone, Debug, PartialEq, Eq)]
pub struct Spanned<Data> {
    pub value: Data,
    pub span: Span,
}

impl<Data> Spanned<Data> {
    pub fn new(value: Data, span: Span) -> (spanned: Self)
        ensures
            spanned.value == value,
            spanned.span == span,
    {
        Self { value, span }
    }

    pub fn span(&self) -> (span: Span)
        ensures
            span == self.span,
    {
        self.span
    }
}

impl<'src> Spanned<Cow<'src, str>> {
    pub fn value(&self) -> (text: &str)
        ensures
            text@ == self.value@,
    {
        cow_str(&self.value)
    }
}

} // verus!
