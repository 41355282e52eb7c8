//! Byte-level helpers for UTF-8 text: character boundaries and slicing.

use vstd::prelude::*;
use vstd::string::*;
use vstd::utf8::*;

verus! {

/// `from..to` is a range of `bytes` that starts and ends between characters.
pub open spec fn is_slice_range(bytes: Seq<u8>, from: int, to: int) -> bool {
    &&& 0 <= from <= to <= bytes.len()
    &&& is_char_boundary(bytes, from)
    &&& is_char_boundary(bytes, to)
}

/// The characters encoded by `bytes[from..to]`.
pub open spec fn slice_chars(bytes: Seq<u8>, from: int, to: int) -> Seq<char> {
    decode_utf8(bytes.subrange(from, to))
}

/// In well-formed UTF-8 the byte after a one-byte character starts a character.
pub proof fn lemma_boundary_after_ascii(bytes: Seq<u8>, i: int)
    requires
        valid_utf8(bytes),
        0 <= i < bytes.len(),
        is_leading_byte_width_1(bytes[i]),
    ensures
        is_char_boundary(bytes, i + 1),
    decreases bytes.len(),
{
    reveal_with_fuel(is_char_boundary, 2);
    if i > 0 {
        let width = length_of_first_scalar(bytes);
        let rest = pop_first_scalar(bytes);
        lemma_boundary_after_ascii(rest, i - width);
    }
}

/// A boundary of the whole text is a boundary of the tail cut off at an
/// earlier boundary.
pub proof fn lemma_boundary_in_tail(bytes: Seq<u8>, from: int, to: int)
    requires
        valid_utf8(bytes),
        is_slice_range(bytes, from, to),
    ensures
        valid_utf8(bytes.subrange(from, bytes.len() as int)),
        is_char_boundary(bytes.subrange(from, bytes.len() as int), to - from),
{
    let tail = bytes.subrange(from, bytes.len() as int);
    valid_utf8_split(bytes, from);
    if to == bytes.len() {
        is_char_boundary_start_end_of_seq(tail);
    } else {
        is_char_boundary_iff_not_is_continuation_byte(bytes, to);
        is_char_boundary_iff_not_is_continuation_byte(tail, to - from);
    }
}

/// Copies the characters of `text` between two byte offsets.
pub fn slice_text(text: &str, from: usize, to: usize) -> (out: String)
    requires
        is_slice_range(text.spec_bytes(), from as int, to as int),
    ensures
        out@ == slice_chars(text.spec_bytes(), from as int, to as int),
{
    let ghost bytes = text.spec_bytes();
    proof {
        encode_utf8_valid_utf8(text@);
        lemma_boundary_in_tail(bytes, from as int, to as int);
    }
    let (_, tail) = text.split_at(from);
    let (mid, _) = tail.split_at(to - from);
    proof {
        assert(mid.spec_bytes() =~= bytes.subrange(from as int, to as int));
        encode_utf8_decode_utf8(mid@);
    }
    mid.to_owned()
}

} // verus!
