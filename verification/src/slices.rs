//! Slices of a string between byte offsets.
//!
//! A string is seen as its characters (`Seq<char>`); offsets into it count the
//! bytes of its UTF-8 encoding, as `str` indices do. An offset can be cut at
//! when it is a character boundary.

use vstd::prelude::*;
use vstd::utf8::*;
use vstd::string::StringSliceAdditionalSpecFns;

verus! {

/// The number of bytes that `text` takes in UTF-8.
pub open spec fn byte_len(text: Seq<char>) -> int {
    encode_utf8(text).len() as int
}

/// Whether `at` is a byte offset at which `text` can be cut: the offset of
/// one of its characters, or its byte length.
pub open spec fn is_boundary(text: Seq<char>, at: int) -> bool {
    is_char_boundary(encode_utf8(text), at)
}

/// The characters of `text` between the byte offsets `from` and `to`.
pub open spec fn byte_slice(text: Seq<char>, from: int, to: int) -> Seq<char> {
    decode_utf8(encode_utf8(text).subrange(from, to))
}

/// A boundary lies within the text.
pub proof fn lemma_boundary_in_range(text: Seq<char>, at: int)
    requires
        is_boundary(text, at),
    ensures
        0 <= at <= byte_len(text),
{
    broadcast use encode_utf8_valid_utf8;
}

/// The start and the end of a text are boundaries.
pub proof fn lemma_ends_are_boundaries(text: Seq<char>)
    ensures
        is_boundary(text, 0),
        is_boundary(text, byte_len(text)),
{
    broadcast use encode_utf8_valid_utf8;
    is_char_boundary_start_end_of_seq(encode_utf8(text));
}

/// A boundary of a byte sequence is a boundary of each prefix that ends at a
/// later boundary.
proof fn lemma_boundary_of_prefix(bytes: Seq<u8>, from: int, to: int)
    requires
        valid_utf8(bytes),
        is_char_boundary(bytes, from),
        is_char_boundary(bytes, to),
        from <= to,
    ensures
        valid_utf8(bytes.subrange(0, to)),
        is_char_boundary(bytes.subrange(0, to), from),
{
    let prefix = bytes.subrange(0, to);
    valid_utf8_split(bytes, to);
    if from == to {
        is_char_boundary_start_end_of_seq(prefix);
    } else if from > 0 {
        is_char_boundary_iff_not_is_continuation_byte(bytes, from);
        is_char_boundary_iff_not_is_continuation_byte(prefix, from);
    }
}

/// The bytes between two boundaries are valid UTF-8, and a boundary between
/// the two is a boundary of that part.
proof fn lemma_part_between_boundaries(bytes: Seq<u8>, from: int, mid: int, to: int)
    requires
        valid_utf8(bytes),
        is_char_boundary(bytes, from),
        is_char_boundary(bytes, mid),
        is_char_boundary(bytes, to),
        from <= mid <= to,
    ensures
        valid_utf8(bytes.subrange(from, to)),
        is_char_boundary(bytes.subrange(from, to), mid - from),
{
    let prefix = bytes.subrange(0, to);
    let part = bytes.subrange(from, to);
    lemma_boundary_of_prefix(bytes, from, to);
    valid_utf8_split(prefix, from);
    assert(prefix.subrange(from, prefix.len() as int) =~= part);
    if mid == to {
        is_char_boundary_start_end_of_seq(part);
    } else if mid > from {
        is_char_boundary_iff_not_is_continuation_byte(bytes, mid);
        is_char_boundary_iff_not_is_continuation_byte(part, mid - from);
    }
}

/// Two slices that meet at a boundary make up the slice over both.
pub proof fn lemma_slices_join(text: Seq<char>, from: int, mid: int, to: int)
    requires
        is_boundary(text, from),
        is_boundary(text, mid),
        is_boundary(text, to),
        from <= mid <= to,
    ensures
        byte_slice(text, from, mid) + byte_slice(text, mid, to) == byte_slice(text, from, to),
{
    broadcast use encode_utf8_valid_utf8;
    let bytes = encode_utf8(text);
    let part = bytes.subrange(from, to);
    lemma_part_between_boundaries(bytes, from, mid, to);
    decode_utf8_split(part, mid - from);
    assert(part.subrange(0, mid - from) =~= bytes.subrange(from, mid));
    assert(part.subrange(mid - from, part.len() as int) =~= bytes.subrange(mid, to));
}

/// The slice over the whole text is the text.
pub proof fn lemma_whole_slice(text: Seq<char>)
    ensures
        byte_slice(text, 0, byte_len(text)) == text,
{
    let bytes = encode_utf8(text);
    assert(bytes.subrange(0, bytes.len() as int) =~= bytes);
    encode_utf8_decode_utf8(text);
}

/// The encoding of a slice is the part of the text's encoding between the two
/// offsets; the slice is empty exactly when the offsets are equal.
pub proof fn lemma_slice_bytes(text: Seq<char>, from: int, to: int)
    requires
        is_boundary(text, from),
        is_boundary(text, to),
        from <= to,
    ensures
        encode_utf8(byte_slice(text, from, to)) == encode_utf8(text).subrange(from, to),
        byte_slice(text, from, to).len() == 0 <==> from == to,
{
    broadcast use encode_utf8_valid_utf8;
    let bytes = encode_utf8(text);
    let part = bytes.subrange(from, to);
    lemma_part_between_boundaries(bytes, from, from, to);
    decode_utf8_encode_utf8(part);
}

/// In a text of ASCII characters each character is one byte: every offset
/// up to the length is a boundary, and a slice is the characters between its
/// offsets.
pub proof fn lemma_ascii_slice(text: Seq<char>, from: int, to: int)
    requires
        is_ascii_chars(text),
        0 <= from <= to <= text.len(),
    ensures
        byte_len(text) == text.len(),
        is_boundary(text, from),
        is_boundary(text, to),
        byte_slice(text, from, to) == text.subrange(from, to),
{
    let bytes = encode_utf8(text);
    let part = text.subrange(from, to);
    encode_utf8_valid_utf8(text);
    is_ascii_chars_encode_utf8(text);
    is_ascii_chars_encode_utf8(part);
    is_char_boundary_start_end_of_seq(bytes);
    if from < text.len() {
        is_char_boundary_iff_is_leading_byte(bytes, from);
    }
    if to < text.len() {
        is_char_boundary_iff_is_leading_byte(bytes, to);
    }
    assert(bytes.subrange(from, to) =~= encode_utf8(part));
    encode_utf8_decode_utf8(part);
}

/// The part of `s` between the byte offsets `from` and `to`.
pub fn slice<'a>(s: &'a str, from: usize, to: usize) -> (part: &'a str)
    requires
        from <= to,
        is_boundary(s@, from as int),
        is_boundary(s@, to as int),
    ensures
        part@ == byte_slice(s@, from as int, to as int),
{
    broadcast use encode_utf8_valid_utf8;
    proof {
        lemma_boundary_of_prefix(s.spec_bytes(), from as int, to as int);
    }
    let head: &'a str = s.split_at(to).0;
    let part: &'a str = head.split_at(from).1;
    proof {
        assert(part.spec_bytes() =~= s.spec_bytes().subrange(from as int, to as int));
        encode_utf8_decode_utf8(part@);
    }
    part
}

} // verus!
