//! Character and byte bookkeeping for UTF-8 text: byte lengths of character
//! sequences, character boundaries, and slicing by character positions.
use std::borrow::Cow;

use vstd::prelude::*;
use vstd::utf8::*;

verus! {

broadcast use vstd::utf8::encode_utf8_valid_utf8, vstd::utf8::encode_utf8_decode_utf8;

/// Number of bytes the UTF-8 encoding of `text` occupies.
pub open spec fn text_len(text: Seq<char>) -> nat {
    encode_utf8(text).len()
}

/// Number of bytes the UTF-8 encoding of one character occupies.
pub open spec fn char_width(c: char) -> nat {
    if (c as u32) < 0x80 {
        1
    } else if (c as u32) < 0x800 {
        2
    } else if (c as u32) < 0x10000 {
        3
    } else {
        4
    }
}

/// Whether byte offset `offset` falls between two characters of `text` (or at
/// either end).
pub open spec fn is_boundary(text: Seq<char>, offset: int) -> bool {
    is_char_boundary(encode_utf8(text), offset)
}

pub proof fn lemma_encode_scalar_len(c: char)
    ensures
        encode_scalar(c as u32).len() == char_width(c),
{
    char_is_scalar(c);
}

pub proof fn lemma_encode_concat(a: Seq<char>, b: Seq<char>)
    ensures
        encode_utf8(a + b) == encode_utf8(a) + encode_utf8(b),
    decreases a.len(),
{
    if a.len() == 0 {
        assert(a + b =~= b);
        assert(encode_utf8(a) + encode_utf8(b) =~= encode_utf8(b));
    } else {
        assert((a + b).drop_first() =~= a.drop_first() + b);
        lemma_encode_concat(a.drop_first(), b);
        assert(encode_utf8(a + b) =~= encode_scalar(a[0] as u32) + encode_utf8(a.drop_first() + b));
    }
}

pub proof fn lemma_text_len_concat(a: Seq<char>, b: Seq<char>)
    ensures
        text_len(a + b) == text_len(a) + text_len(b),
{
    lemma_encode_concat(a, b);
}

pub proof fn lemma_text_len_single(c: char)
    ensures
        text_len(seq![c]) == char_width(c),
{
    lemma_encode_scalar_len(c);
    assert(seq![c].drop_first() =~= Seq::<char>::empty());
    assert(encode_utf8(Seq::<char>::empty()) =~= Seq::<u8>::empty());
    assert(encode_utf8(seq![c]) =~= encode_scalar(c as u32) + encode_utf8(Seq::<char>::empty()));
}

/// Extending a prefix by one character adds that character's width.
pub proof fn lemma_text_len_step(text: Seq<char>, k: int)
    requires
        0 <= k < text.len(),
    ensures
        text_len(text.take(k + 1)) == text_len(text.take(k)) + char_width(text[k]),
{
    assert(text.take(k + 1) =~= text.take(k) + seq![text[k]]);
    lemma_text_len_concat(text.take(k), seq![text[k]]);
    lemma_text_len_single(text[k]);
}

/// A prefix never encodes to more bytes than the whole text.
pub proof fn lemma_text_len_prefix(text: Seq<char>, k: int, j: int)
    requires
        0 <= k <= j <= text.len(),
    ensures
        text_len(text.take(k)) <= text_len(text.take(j)) <= text_len(text),
{
    assert(text.take(j) =~= text.take(k) + text.subrange(k, j));
    lemma_text_len_concat(text.take(k), text.subrange(k, j));
    assert(text =~= text.take(j) + text.skip(j));
    lemma_text_len_concat(text.take(j), text.skip(j));
}

/// Every character takes at least one byte.
pub proof fn lemma_len_le_text_len(text: Seq<char>)
    ensures
        text.len() <= text_len(text),
    decreases text.len(),
{
    if text.len() > 0 {
        assert(text =~= seq![text[0]] + text.drop_first());
        lemma_text_len_concat(seq![text[0]], text.drop_first());
        lemma_text_len_single(text[0]);
        lemma_len_le_text_len(text.drop_first());
    }
}

/// The bytes after a prefix of `k` characters encode the remaining characters.
pub proof fn lemma_encode_skip(text: Seq<char>, k: int)
    requires
        0 <= k <= text.len(),
    ensures
        encode_utf8(text).subrange(text_len(text.take(k)) as int, text_len(text) as int)
            == encode_utf8(text.skip(k)),
        encode_utf8(text).subrange(0, text_len(text.take(k)) as int) == encode_utf8(text.take(k)),
{
    assert(text =~= text.take(k) + text.skip(k));
    lemma_encode_concat(text.take(k), text.skip(k));
    assert(encode_utf8(text).subrange(text_len(text.take(k)) as int, text_len(text) as int)
        =~= encode_utf8(text.skip(k)));
    assert(encode_utf8(text).subrange(0, text_len(text.take(k)) as int) =~= encode_utf8(
        text.take(k),
    ));
}

/// The byte offset reached after `k` whole characters is a character boundary.
pub proof fn lemma_boundary(text: Seq<char>, k: int)
    requires
        0 <= k <= text.len(),
    ensures
        is_boundary(text, text_len(text.take(k)) as int),
    decreases k,
{
    let bytes = encode_utf8(text);
    if k == 0 {
        assert(text.take(0) =~= Seq::<char>::empty());
    } else {
        let rest = text.drop_first();
        encode_utf8_first_scalar(text);
        lemma_encode_scalar_len(text[0]);
        assert(pop_first_scalar(bytes) =~= encode_utf8(rest));
        lemma_boundary(rest, k - 1);
        assert(text.take(k) =~= seq![text[0]] + rest.take(k - 1));
        lemma_text_len_concat(seq![text[0]], rest.take(k - 1));
        lemma_text_len_single(text[0]);
        lemma_text_len_prefix(text, k, k);
    }
}

/// Byte width of `c` in UTF-8, computed from its scalar value.
pub fn char_len(c: char) -> (n: usize)
    ensures
        n == char_width(c),
{
    let v = c as u32;
    if v < 0x80 {
        1
    } else if v < 0x800 {
        2
    } else if v < 0x10000 {
        3
    } else {
        4
    }
}

/// The slice of `source` holding the characters from `from` up to `to`, given
/// their byte offsets `start` and `end`.
pub fn slice<'a>(source: &'a str, start: usize, end: usize, Ghost(from): Ghost<int>, Ghost(to): Ghost<int>) -> (out: &'a str)
    requires
        0 <= from <= to <= source@.len(),
        start == text_len(source@.take(from)),
        end == text_len(source@.take(to)),
    ensures
        out@ == source@.subrange(from, to),
{
    let ghost text = source@;
    proof {
        lemma_boundary(text, from);
        lemma_text_len_prefix(text, from, to);
        lemma_encode_skip(text, from);
    }
    let (_, tail) = source.split_at(start);
    proof {
        let bytes = encode_utf8(text);
        assert(encode_utf8(tail@) =~= encode_utf8(text.skip(from)));
        assert(tail@ == text.skip(from)) by {
            assert(decode_utf8(encode_utf8(tail@)) == tail@);
            assert(decode_utf8(encode_utf8(text.skip(from))) == text.skip(from));
        }
        let rest = text.skip(from);
        assert(rest.take(to - from) =~= text.subrange(from, to));
        assert(text.take(to) =~= text.take(from) + text.subrange(from, to));
        lemma_text_len_concat(text.take(from), text.subrange(from, to));
        lemma_boundary(rest, to - from);
        lemma_encode_skip(rest, to - from);
    }
    let (head, _) = tail.split_at(end - start);
    proof {
        let rest = text.skip(from);
        assert(encode_utf8(head@) =~= encode_utf8(rest.take(to - from)));
        assert(decode_utf8(encode_utf8(head@)) == head@);
        assert(decode_utf8(encode_utf8(rest.take(to - from))) == rest.take(to - from));
    }
    head
}

/// Cloning a copy-on-write value: `std` copies a borrowed value's reference
/// and clones an owned value; nothing is stated about the copy.
pub assume_specification<'a, B: ?Sized + ToOwned>[ <Cow<'a, B> as Clone>::clone ](
    cow: &Cow<'a, B>,
) -> Cow<'a, B>;

/// The text a copy-on-write string holds.
pub fn cow_str<'a, 'b>(text: &'a Cow<'b, str>) -> (out: &'a str)
    ensures
        out@ == text@,
{
    match text {
        Cow::Borrowed(borrowed) => borrowed,
        Cow::Owned(owned) => owned.as_str(),
    }
}

/// The text `std`'s `Debug` formatting shows for a string: the characters in
/// double quotes, with quotes, backslashes and unprintable characters escaped.
pub uninterp spec fn quoted(text: Seq<char>) -> Seq<char>;

/// Renders `text` the way `{:?}` shows a string.
#[verifier::external_body]
pub(crate) fn debug_quoted(text: &str) -> (shown: String)
    ensures
        shown@ == quoted(text@),
{
    format!("{text:?}")
}

/// `String::push`: appends one character to an owned string.
#[verifier::external_body]
pub(crate) fn push_char(text: &mut String, c: char)
    ensures
        final(text)@ == old(text)@.push(c),
{
    text.push(c);
}

/// Whether two strings hold the same characters, compared byte by byte.
pub fn same_text(a: &str, b: &str) -> (same: bool)
    ensures
        same == (a@ == b@),
{
    let x = a.as_bytes();
    let y = b.as_bytes();
    proof {
        assert(decode_utf8(encode_utf8(a@)) == a@);
        assert(decode_utf8(encode_utf8(b@)) == b@);
        assert(x@ == encode_utf8(a@));
        assert(y@ == encode_utf8(b@));
    }
    if x.len() != y.len() {
        return false;
    }
    let mut i: usize = 0;
    while i < x.len()
        invariant
            x.len() == y.len(),
            i <= x.len(),
            forall|j: int| 0 <= j < i ==> x@[j] == y@[j],
            x@ == encode_utf8(a@),
            y@ == encode_utf8(b@),
        decreases x.len() - i,
    {
        if x[i] != y[i] {
            return false;
        }
        i += 1;
    }
    assert(x@ =~= y@);
    true
}

} // verus!
