//! Facts about UTF-8 that let a scan over bytes speak about characters.

use crate::substring::{has_substring, occurs_at};
use vstd::prelude::*;
use vstd::utf8::*;

verus! {

/// Encoding distributes over concatenation.
pub proof fn lemma_encode_concat(a: Seq<char>, b: Seq<char>)
    ensures
        encode_utf8(a + b) == encode_utf8(a) + encode_utf8(b),
    decreases a.len(),
{
    if a.len() == 0 {
    } else {
        assert((a + b).drop_first() =~= a.drop_first() + b);
        lemma_encode_concat(a.drop_first(), b);
    }
}

/// Two texts with the same encoding are the same text.
pub proof fn lemma_encode_injective(a: Seq<char>, b: Seq<char>)
    requires
        encode_utf8(a) == encode_utf8(b),
    ensures
        a == b,
{
    encode_utf8_decode_utf8(a);
    encode_utf8_decode_utf8(b);
}

/// Where a well-formed encoding starts with another well-formed encoding, the
/// shorter one ends on a character boundary of the longer one.
proof fn lemma_boundary_after_prefix(prefix: Seq<u8>, rest: Seq<u8>)
    requires
        valid_utf8(prefix),
        valid_utf8(prefix + rest),
    ensures
        is_char_boundary(prefix + rest, prefix.len() as int),
    decreases prefix.len(),
{
    let whole = prefix + rest;
    if prefix.len() > 0 {
        assert(pop_first_scalar(whole) =~= pop_first_scalar(prefix) + rest);
        lemma_boundary_after_prefix(pop_first_scalar(prefix), rest);
    }
}

/// A text holds another as a run of characters exactly when its encoding holds
/// the other's encoding as a run of bytes.
pub proof fn lemma_substring_of_encoding(haystack: Seq<char>, needle: Seq<char>)
    ensures
        has_substring(encode_utf8(haystack), encode_utf8(needle)) == has_substring(
            haystack,
            needle,
        ),
{
    let hay = encode_utf8(haystack);
    let ndl = encode_utf8(needle);
    encode_utf8_valid_utf8(haystack);
    encode_utf8_valid_utf8(needle);
    encode_utf8_decode_utf8(haystack);
    encode_utf8_decode_utf8(needle);
    if has_substring(haystack, needle) {
        let at = choose|at: int| occurs_at(haystack, needle, at);
        let before = haystack.subrange(0, at);
        let after = haystack.subrange(at + needle.len(), haystack.len() as int);
        assert(haystack =~= before + needle + after);
        lemma_encode_concat(before + needle, after);
        lemma_encode_concat(before, needle);
        let k = encode_utf8(before).len() as int;
        assert(hay.subrange(k, k + ndl.len()) =~= ndl);
        assert(occurs_at(hay, ndl, k));
    }
    if has_substring(hay, ndl) {
        let k = choose|k: int| occurs_at(hay, ndl, k);
        if needle.len() == 0 {
            assert(haystack.subrange(0, 0) =~= needle);
            assert(occurs_at(haystack, needle, 0));
        } else {
            encode_utf8_first_scalar(needle);
            is_char_boundary_iff_not_is_continuation_byte(ndl, 0);
            is_char_boundary_iff_not_is_continuation_byte(hay, k);
            valid_utf8_split(hay, k);
            decode_utf8_split(hay, k);
            let head = hay.subrange(0, k);
            let tail = hay.subrange(k, hay.len() as int);
            let rest = tail.subrange(ndl.len() as int, tail.len() as int);
            assert(tail =~= ndl + rest);
            lemma_boundary_after_prefix(ndl, rest);
            valid_utf8_split(tail, ndl.len() as int);
            decode_utf8_split(tail, ndl.len() as int);
            assert(tail.subrange(0, ndl.len() as int) =~= ndl);
            let at = decode_utf8(head).len() as int;
            assert(haystack.subrange(at, at + needle.len()) =~= needle);
            assert(occurs_at(haystack, needle, at));
        }
    }
}

/// A byte below 0x80 in an encoding is one whole character, and the text is
/// what stands before it, that character, and what stands after it.
pub proof fn lemma_ascii_byte_splits(text: Seq<char>, at: int, c: char)
    requires
        0 <= at < encode_utf8(text).len(),
        encode_utf8(text)[at] < 0x80,
        c as u32 == encode_utf8(text)[at] as u32,
    ensures
        ({
            let bytes = encode_utf8(text);
            let tail = bytes.subrange(at, bytes.len() as int);
            &&& is_char_boundary(bytes, at)
            &&& is_char_boundary(tail, 1)
            &&& valid_utf8(bytes.subrange(0, at))
            &&& valid_utf8(tail)
            &&& valid_utf8(bytes.subrange(at + 1, bytes.len() as int))
            &&& text == decode_utf8(bytes.subrange(0, at)) + seq![c] + decode_utf8(
                bytes.subrange(at + 1, bytes.len() as int),
            )
        }),
{
    let bytes = encode_utf8(text);
    let tail = bytes.subrange(at, bytes.len() as int);
    let byte = bytes[at];
    encode_utf8_valid_utf8(text);
    encode_utf8_decode_utf8(text);
    is_char_boundary_iff_not_is_continuation_byte(bytes, at);
    valid_utf8_split(bytes, at);
    decode_utf8_split(bytes, at);
    assert(pop_first_scalar(tail) =~= bytes.subrange(at + 1, bytes.len() as int));
    assert(is_char_boundary(tail, 1)) by {
        reveal_with_fuel(is_char_boundary, 2);
    }
    assert(decode_first_scalar(tail) == byte as u32) by {
        assert(byte < 0x80 ==> (byte & 0x7F) as u32 == byte as u32) by (bit_vector);
    }
    char_u32_cast(c, decode_first_scalar(tail));
    assert(text =~= decode_utf8(bytes.subrange(0, at)) + seq![c] + decode_utf8(
        bytes.subrange(at + 1, bytes.len() as int),
    ));
}

/// An ASCII character of a text is a byte of its encoding, with the same value.
pub proof fn lemma_ascii_char_is_byte(text: Seq<char>, at: int)
    requires
        0 <= at < text.len(),
        (text[at] as u32) < 0x80,
    ensures
        ({
            let k = encode_utf8(text.subrange(0, at)).len() as int;
            let after = encode_utf8(text.subrange(at + 1, text.len() as int));
            &&& encode_utf8(text).len() == k + 1 + after.len()
            &&& encode_utf8(text)[k] as u32 == text[at] as u32
        }),
{
    let before = text.subrange(0, at);
    let after = text.subrange(at + 1, text.len() as int);
    let middle = seq![text[at]];
    let scalar = text[at] as u32;
    assert(text =~= before + (middle + after));
    lemma_encode_concat(before, middle + after);
    lemma_encode_concat(middle, after);
    assert(encode_utf8(middle) =~= seq![leading_byte_width_1(scalar)]) by {
        reveal_with_fuel(encode_utf8, 2);
    }
    assert(scalar < 0x80 ==> ((scalar & 0x7F) as u8) as u32 == scalar) by (bit_vector);
}

} // verus!
