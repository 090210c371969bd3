//! Substring containment.

use vstd::prelude::*;
use vstd::string::StringSliceAdditionalSpecFns;
use vstd::utf8::{
    decode_utf8, decode_utf8_split, encode_utf8, encode_utf8_decode_utf8, encode_utf8_valid_utf8,
    is_char_boundary, is_char_boundary_iff_not_is_continuation_byte,
    is_char_boundary_start_end_of_seq, valid_utf8_split,
};
use crate::encoding::{lemma_encode_concat, lemma_valid_prefix_ends_on_boundary};

verus! {

/// `needle` stands in `hay` at position `at`.
pub open spec fn occurs_at<A>(needle: Seq<A>, hay: Seq<A>, at: int) -> bool {
    &&& 0 <= at
    &&& at + needle.len() <= hay.len()
    &&& hay.subrange(at, at + needle.len()) == needle
}

/// `needle` is a contiguous part of `hay`.
pub open spec fn occurs_in<A>(needle: Seq<A>, hay: Seq<A>) -> bool {
    exists|at: int| occurs_at(needle, hay, at)
}

/// The empty sequence is part of every sequence.
pub proof fn lemma_empty_occurs<A>(needle: Seq<A>, hay: Seq<A>)
    requires
        needle.len() == 0,
    ensures
        occurs_in(needle, hay),
{
    assert(hay.subrange(0, 0) =~= needle);
    assert(occurs_at(needle, hay, 0));
}

/// Where a text holds another one, its encoding holds the other's encoding.
proof fn lemma_occurrence_is_encoded(needle: Seq<char>, hay: Seq<char>, at: int)
    requires
        occurs_at(needle, hay, at),
    ensures
        occurs_in(encode_utf8(needle), encode_utf8(hay)),
{
    let before = hay.subrange(0, at);
    let after = hay.subrange(at + needle.len(), hay.len() as int);
    assert(hay =~= before + needle + after);
    lemma_encode_concat(before + needle, after);
    lemma_encode_concat(before, needle);
    let start = encode_utf8(before).len() as int;
    assert(encode_utf8(hay).subrange(start, start + encode_utf8(needle).len()) =~= encode_utf8(
        needle,
    ));
    assert(occurs_at(encode_utf8(needle), encode_utf8(hay), start));
}

/// Where the encoding of a text holds the encoding of another one, the text
/// holds the other: a match between the bytes cannot start or end inside a
/// character.
proof fn lemma_occurrence_is_decoded(needle: Seq<char>, hay: Seq<char>, at: int)
    requires
        occurs_at(encode_utf8(needle), encode_utf8(hay), at),
    ensures
        occurs_in(needle, hay),
{
    let n = encode_utf8(needle);
    let h = encode_utf8(hay);
    encode_utf8_valid_utf8(needle);
    encode_utf8_valid_utf8(hay);
    encode_utf8_decode_utf8(needle);
    encode_utf8_decode_utf8(hay);
    if n.len() == 0 {
        assert(needle.len() == 0) by {
            assert(decode_utf8(n) =~= Seq::<char>::empty());
        }
        lemma_empty_occurs(needle, hay);
    } else {
        assert(h[at] == h.subrange(at, at + n.len())[0]);
        is_char_boundary_start_end_of_seq(n);
        is_char_boundary_iff_not_is_continuation_byte(n, 0);
        is_char_boundary_iff_not_is_continuation_byte(h, at);
        valid_utf8_split(h, at);
        decode_utf8_split(h, at);
        let tail = h.subrange(at, h.len() as int);
        assert(tail.subrange(0, n.len() as int) =~= n);
        lemma_valid_prefix_ends_on_boundary(tail, n.len() as int);
        decode_utf8_split(tail, n.len() as int);
        let before = decode_utf8(h.subrange(0, at));
        let after = decode_utf8(tail.subrange(n.len() as int, tail.len() as int));
        let start = before.len() as int;
        assert(hay =~= before + (needle + after));
        assert(hay.subrange(start, start + needle.len()) =~= needle);
        assert(occurs_at(needle, hay, start));
    }
}

/// A text holds another one exactly when its encoding holds the other's.
pub proof fn lemma_occurs_in_encoding(needle: Seq<char>, hay: Seq<char>)
    ensures
        occurs_in(encode_utf8(needle), encode_utf8(hay)) == occurs_in(needle, hay),
{
    if occurs_in(needle, hay) {
        let at = choose|at: int| occurs_at(needle, hay, at);
        lemma_occurrence_is_encoded(needle, hay, at);
    }
    if occurs_in(encode_utf8(needle), encode_utf8(hay)) {
        let at = choose|at: int| occurs_at(encode_utf8(needle), encode_utf8(hay), at);
        lemma_occurrence_is_decoded(needle, hay, at);
    }
}

/// Whether `needle` stands in `hay` at position `at`.
fn matches_at(hay: &[u8], needle: &[u8], at: usize) -> (found: bool)
    requires
        at + needle@.len() <= hay@.len(),
    ensures
        found == occurs_at(needle@, hay@, at as int),
{
    let width: usize = needle.len();
    let total: usize = hay.len();
    let mut i: usize = 0;
    while i < width
        invariant
            i <= width,
            width == needle@.len(),
            total == hay@.len(),
            at + width <= total,
            forall|j: int| 0 <= j < i ==> hay@[at + j] == needle@[j],
        decreases width - i,
    {
        if hay[at + i] != needle[i] {
            assert(hay@.subrange(at as int, at + width)[i as int] != needle@[i as int]);
            return false;
        }
        i += 1;
    }
    assert(hay@.subrange(at as int, at + needle@.len()) =~= needle@);
    true
}

/// Whether `needle` is a contiguous part of `hay`.
fn bytes_contain(hay: &[u8], needle: &[u8]) -> (found: bool)
    ensures
        found == occurs_in(needle@, hay@),
{
    if needle.len() > hay.len() {
        return false;
    }
    let last: usize = hay.len() - needle.len();
    let mut at: usize = 0;
    loop
        invariant
            at <= last,
            last == hay@.len() - needle@.len(),
            forall|k: int| 0 <= k < at ==> !occurs_at(needle@, hay@, k),
        decreases last - at,
    {
        if matches_at(hay, needle, at) {
            return true;
        }
        if at == last {
            return false;
        }
        at += 1;
    }
}

/// Whether `needle` is a contiguous part of `hay`, compared character by
/// character with no folding. The empty text is part of every text.
pub fn contains(hay: &str, needle: &str) -> (found: bool)
    ensures
        found == occurs_in(needle@, hay@),
{
    proof {
        lemma_occurs_in_encoding(needle@, hay@);
    }
    bytes_contain(hay.as_bytes(), needle.as_bytes())
}

} // verus!
