//! Facts about UTF-8 that the builder rests on.

use vstd::prelude::*;
use vstd::utf8::{
    encode_utf8, encode_utf8_decode_utf8, encode_utf8_valid_utf8, is_char_boundary,
    is_char_boundary_iff_not_is_continuation_byte, is_char_boundary_start_end_of_seq,
    valid_utf8, valid_utf8_concat, valid_utf8_split,
};

verus! {

/// The encoding of two texts, one behind the other, is the encoding of the
/// first and then that of the second.
pub proof fn lemma_encode_add(a: Seq<char>, b: Seq<char>)
    ensures
        encode_utf8(a + b) == encode_utf8(a) + encode_utf8(b),
    decreases a.len(),
{
    if a.len() == 0 {
        assert(a + b =~= b);
        assert(encode_utf8(a) + encode_utf8(b) =~= encode_utf8(b));
    } else {
        lemma_encode_add(a.drop_first(), b);
        assert((a + b).drop_first() =~= a.drop_first() + b);
        assert((a + b)[0] == a[0]);
        assert(encode_utf8(a + b) =~= encode_utf8(a) + encode_utf8(b));
    }
}

/// Texts with the same encoding are the same text.
pub proof fn lemma_encode_injective(a: Seq<char>, b: Seq<char>)
    requires
        encode_utf8(a) == encode_utf8(b),
    ensures
        a == b,
{
    encode_utf8_decode_utf8(a);
    encode_utf8_decode_utf8(b);
}

/// A character boundary lies within the bytes.
pub proof fn lemma_boundary_in_range(bytes: Seq<u8>, index: int)
    requires
        valid_utf8(bytes),
        is_char_boundary(bytes, index),
    ensures
        0 <= index <= bytes.len(),
{
}

/// A character boundary of some bytes is still one when more text follows.
pub proof fn lemma_boundary_in_prefix(first: Seq<u8>, second: Seq<u8>, index: int)
    requires
        valid_utf8(first),
        valid_utf8(second),
        is_char_boundary(first, index),
    ensures
        is_char_boundary(first + second, index),
{
    let all = first + second;
    valid_utf8_concat(first, second);
    lemma_boundary_in_range(first, index);
    if index == all.len() {
        is_char_boundary_start_end_of_seq(all);
    } else if index < first.len() {
        is_char_boundary_iff_not_is_continuation_byte(first, index);
        is_char_boundary_iff_not_is_continuation_byte(all, index);
    } else {
        is_char_boundary_start_end_of_seq(second);
        is_char_boundary_iff_not_is_continuation_byte(second, 0);
        is_char_boundary_iff_not_is_continuation_byte(all, index);
    }
}

/// Between two character boundaries lies valid text: what follows the first
/// boundary is valid, and the second boundary is a boundary of it.
pub proof fn lemma_boundary_in_suffix(bytes: Seq<u8>, from: int, len: int)
    requires
        valid_utf8(bytes),
        is_char_boundary(bytes, from),
        is_char_boundary(bytes, from + len),
        len >= 0,
    ensures
        valid_utf8(bytes.skip(from)),
        is_char_boundary(bytes.skip(from), len),
{
    let rest = bytes.skip(from);
    lemma_boundary_in_range(bytes, from);
    lemma_boundary_in_range(bytes, from + len);
    valid_utf8_split(bytes, from);
    if len == rest.len() {
        is_char_boundary_start_end_of_seq(rest);
    } else {
        is_char_boundary_iff_not_is_continuation_byte(bytes, from + len);
        is_char_boundary_iff_not_is_continuation_byte(rest, len);
    }
}

/// Both ends of a text are character boundaries of its encoding.
pub proof fn lemma_boundary_at_ends(text: Seq<char>)
    ensures
        valid_utf8(encode_utf8(text)),
        is_char_boundary(encode_utf8(text), 0),
        is_char_boundary(encode_utf8(text), encode_utf8(text).len() as int),
{
    encode_utf8_valid_utf8(text);
    is_char_boundary_start_end_of_seq(encode_utf8(text));
}

} // verus!
