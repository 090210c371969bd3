//! How a text relates to its UTF-8 bytes.
//!
//! The executable code scans the bytes of a `str`, while every contract is
//! stated over its characters. The lemmas here carry facts from one side to
//! the other.

use vstd::prelude::*;
use vstd::utf8::*;

verus! {

/// Encoding a concatenation gives the concatenation of the encodings.
pub proof fn lemma_encode_concat(a: Seq<char>, b: Seq<char>)
    ensures
        encode_utf8(a + b) == encode_utf8(a) + encode_utf8(b),
    decreases a.len(),
{
    if a.len() == 0 {
        assert(a + b =~= b);
        assert(encode_utf8(a) + encode_utf8(b) =~= encode_utf8(b));
    } else {
        lemma_encode_concat(a.drop_first(), b);
        assert((a + b).drop_first() =~= a.drop_first() + b);
        assert(encode_utf8(a + b) =~= encode_utf8(a) + encode_utf8(b));
    }
}

/// Two texts with the same encoding are the same text.
pub proof fn lemma_encode_injective(a: Seq<char>, b: Seq<char>)
    requires
        encode_utf8(a) == encode_utf8(b),
    ensures
        a == b,
{
    encode_utf8_decode_utf8(a);
    encode_utf8_decode_utf8(b);
}

/// A character below 0x80 is encoded as the one byte of the same value; every
/// byte of any other character's encoding is 0x80 or above.
proof fn lemma_scalar_bytes(c: char)
    ensures
        encode_scalar(c as u32).len() >= 1,
        (c as u32) < 0x80 ==> encode_scalar(c as u32) == seq![c as u8],
        (c as u32) >= 0x80 ==> forall|j: int|
            0 <= j < encode_scalar(c as u32).len() ==> #[trigger] encode_scalar(c as u32)[j]
                >= 0x80,
{
    let u = c as u32;
    char_is_scalar(c);
    if has_width_1_encoding(u) {
        assert(leading_byte_width_1(u) == u as u8) by (bit_vector)
            requires
                u <= 0x7F,
        ;
        assert(encode_scalar(u) =~= seq![c as u8]);
    } else {
        assert(leading_byte_width_2(u) >= 0x80) by (bit_vector);
        assert(leading_byte_width_3(u) >= 0x80) by (bit_vector);
        assert(leading_byte_width_4(u) >= 0x80) by (bit_vector);
        assert(last_continuation_byte(u) >= 0x80) by (bit_vector);
        assert(second_last_continuation_byte(u) >= 0x80) by (bit_vector);
        assert(third_last_continuation_byte(u) >= 0x80) by (bit_vector);
    }
}

/// The encoding of a character holds the byte of an ASCII character only
/// where it is that character, and is then that one byte.
pub proof fn lemma_ascii_in_scalar(c: char, ascii: char)
    requires
        (ascii as u32) < 0x80,
    ensures
        encode_scalar(c as u32).len() >= 1,
        c == ascii ==> encode_scalar(c as u32) == seq![ascii as u8],
        c != ascii ==> forall|j: int|
            0 <= j < encode_scalar(c as u32).len() ==> #[trigger] encode_scalar(c as u32)[j]
                != ascii as u8,
{
    lemma_scalar_bytes(c);
}

/// The encoding of a text of one character is the encoding of the character.
pub proof fn lemma_encode_single(c: char)
    ensures
        encode_utf8(seq![c]) == encode_scalar(c as u32),
{
    assert(seq![c].drop_first() =~= Seq::<char>::empty());
    assert(encode_utf8(Seq::<char>::empty()) =~= Seq::<u8>::empty());
    assert(encode_utf8(seq![c]) =~= encode_scalar(c as u32));
}

/// Where a valid byte sequence starts with a shorter valid byte sequence, the
/// shorter one ends on a character boundary of the longer one.
pub proof fn lemma_valid_prefix_ends_on_boundary(bytes: Seq<u8>, n: int)
    requires
        valid_utf8(bytes),
        0 <= n <= bytes.len(),
        valid_utf8(bytes.subrange(0, n)),
    ensures
        is_char_boundary(bytes, n),
    decreases n,
{
    if n > 0 {
        let prefix = bytes.subrange(0, n);
        let k = length_of_first_scalar(prefix);
        assert(prefix[0] == bytes[0]);
        assert(k == length_of_first_scalar(bytes));
        assert(k <= n);
        assert(pop_first_scalar(prefix) =~= pop_first_scalar(bytes).subrange(0, n - k));
        lemma_valid_prefix_ends_on_boundary(pop_first_scalar(bytes), n - k);
    }
}

} // verus!
