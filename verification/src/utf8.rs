//! Facts about the UTF-8 encoding of a text, by which work on the bytes of
//! a `str` is carried over to its characters.

use vstd::prelude::*;
use vstd::utf8::{
    decode_utf8, decode_utf8_split, encode_scalar, encode_utf8,
    is_char_boundary_iff_not_is_continuation_byte, is_char_boundary_start_end_of_seq,
    is_char_boundary, pop_first_scalar, valid_utf8, valid_utf8_split,
};

verus! {

/// The byte that encodes a newline.
pub const NEWLINE: u8 = 0x0A;

/// In valid UTF-8 a byte below 0x80 is a character of its own: a character
/// begins at it, the next one begins right behind it, and the text is what
/// stands in front of the byte, the byte's character, and what stands
/// behind it.
pub proof fn lemma_ascii_byte(bytes: Seq<u8>, i: int)
    requires
        valid_utf8(bytes),
        0 <= i < bytes.len(),
        bytes[i] < 0x80,
    ensures
        is_char_boundary(bytes, i),
        is_char_boundary(bytes, i + 1),
        decode_utf8(bytes) == decode_utf8(bytes.subrange(0, i)) + seq![bytes[i] as char]
            + decode_utf8(bytes.subrange(i + 1, bytes.len() as int)),
{
    let b = bytes[i];
    let behind = bytes.subrange(i, bytes.len() as int);
    is_char_boundary_iff_not_is_continuation_byte(bytes, i);
    valid_utf8_split(bytes, i);
    decode_utf8_split(bytes, i);
    assert(behind[0] == b);
    assert(pop_first_scalar(behind) =~= bytes.subrange(i + 1, bytes.len() as int));
    assert((b & 0x7F) as u32 == b as u32) by (bit_vector)
        requires
            b < 0x80,
    ;
    assert(decode_utf8(behind) =~= seq![b as char] + decode_utf8(
        bytes.subrange(i + 1, bytes.len() as int),
    ));
    if i + 1 < bytes.len() {
        reveal_with_fuel(is_char_boundary, 2);
        assert(is_char_boundary(behind, 1));
        is_char_boundary_iff_not_is_continuation_byte(behind, 1);
        assert(behind[1] == bytes[i + 1]);
        is_char_boundary_iff_not_is_continuation_byte(bytes, i + 1);
    } else {
        is_char_boundary_start_end_of_seq(bytes);
    }
}

/// A text that holds a newline has the newline byte in its encoding.
pub proof fn lemma_newline_byte(chars: Seq<char>, k: int)
    requires
        0 <= k < chars.len(),
        chars[k] == '\n',
    ensures
        encode_utf8(chars).contains(NEWLINE),
    decreases chars.len(),
{
    let head = encode_scalar(chars[0] as u32);
    let tail = encode_utf8(chars.drop_first());
    assert(encode_utf8(chars) == head + tail);
    if k == 0 {
        let c: u32 = chars[0] as u32;
        assert((c & 0x7F) as u8 == 0x0Au8) by (bit_vector)
            requires
                c == 0x0Au32,
        ;
        assert((head + tail)[0] == NEWLINE);
    } else {
        lemma_newline_byte(chars.drop_first(), k - 1);
        let p = choose|p: int| 0 <= p < tail.len() && tail[p] == NEWLINE;
        assert((head + tail)[head.len() + p] == NEWLINE);
    }
}

/// The encoding of two texts in a row is the encoding of the first, then
/// that of the second.
pub proof fn lemma_encode_concat(first: Seq<char>, second: Seq<char>)
    ensures
        encode_utf8(first + second) == encode_utf8(first) + encode_utf8(second),
    decreases first.len(),
{
    if first.len() == 0 {
        assert(first + second =~= second);
        assert(encode_utf8(first) + encode_utf8(second) =~= encode_utf8(second));
    } else {
        lemma_encode_concat(first.drop_first(), second);
        assert((first + second).drop_first() =~= first.drop_first() + second);
        assert(encode_utf8(first + second) =~= encode_utf8(first) + encode_utf8(second));
    }
}

} // verus!
