//! The lines of a text.
//!
//! A text is split at each newline character. The newlines belong to no line,
//! so a text with `n` newlines has `n + 1` lines; a line is empty where two
//! newlines follow each other, and where the text starts or ends with one.

use vstd::prelude::*;
use vstd::utf8::*;
use crate::slices::{lemma_ends_are_boundaries, lemma_slice_bytes, slice};

verus! {

/// The byte that encodes the newline character.
pub const NEWLINE: u8 = 0x0A;

/// The lines of `text`, in order.
pub open spec fn lines_of(text: Seq<char>) -> Seq<Seq<char>>
    decreases text.len(),
{
    if text.len() == 0 {
        seq![Seq::empty()]
    } else {
        let earlier = lines_of(text.drop_last());
        if text.last() == '\n' {
            earlier.push(Seq::empty())
        } else {
            earlier.drop_last().push(earlier.last().push(text.last()))
        }
    }
}

/// The number of newline characters in `text`.
pub open spec fn newline_count(text: Seq<char>) -> nat
    decreases text.len(),
{
    if text.len() == 0 {
        0
    } else if text.last() == '\n' {
        newline_count(text.drop_last()) + 1
    } else {
        newline_count(text.drop_last())
    }
}

/// `lines` put together again, with a newline between each two.
pub open spec fn rejoined(lines: Seq<Seq<char>>) -> Seq<char>
    decreases lines.len(),
{
    if lines.len() == 0 {
        Seq::empty()
    } else if lines.len() == 1 {
        lines[0]
    } else {
        rejoined(lines.drop_last()).push('\n') + lines.last()
    }
}

/// A text has one line more than it has newlines.
pub proof fn lemma_line_count(text: Seq<char>)
    ensures
        lines_of(text).len() == newline_count(text) + 1,
    decreases text.len(),
{
    if text.len() > 0 {
        lemma_line_count(text.drop_last());
    }
}

/// No line holds a newline, and the lines with a newline between each two
/// are the text.
pub proof fn lemma_lines_rejoin(text: Seq<char>)
    ensures
        rejoined(lines_of(text)) == text,
        forall|k: int, i: int|
            0 <= k < lines_of(text).len() && 0 <= i < lines_of(text)[k].len() ==> (
            #[trigger] lines_of(text)[k][i]) != '\n',
    decreases text.len(),
{
    if text.len() > 0 {
        let shorter = text.drop_last();
        let earlier = lines_of(shorter);
        lemma_lines_rejoin(shorter);
        lemma_line_count(shorter);
        let lines = lines_of(text);
        if text.last() == '\n' {
            assert(lines.drop_last() =~= earlier);
        } else {
            assert(lines.drop_last() =~= earlier.drop_last());
            assert(shorter.push(text.last()) =~= text);
        }
    }
}

/// The lines of a byte sequence, split at each newline byte.
spec fn byte_lines(bytes: Seq<u8>) -> Seq<Seq<u8>>
    decreases bytes.len(),
{
    if bytes.len() == 0 {
        seq![Seq::empty()]
    } else {
        let earlier = byte_lines(bytes.drop_last());
        if bytes.last() == NEWLINE {
            earlier.push(Seq::empty())
        } else {
            earlier.drop_last().push(earlier.last().push(bytes.last()))
        }
    }
}

/// Every byte sequence has a line.
proof fn lemma_byte_lines_nonempty(bytes: Seq<u8>)
    ensures
        byte_lines(bytes).len() > 0,
    decreases bytes.len(),
{
    if bytes.len() > 0 {
        lemma_byte_lines_nonempty(bytes.drop_last());
    }
}

/// Bytes without a newline among them lengthen the last line.
proof fn lemma_byte_lines_extend(bytes: Seq<u8>, more: Seq<u8>)
    requires
        forall|i: int| 0 <= i < more.len() ==> more[i] != NEWLINE,
    ensures
        byte_lines(bytes + more) == byte_lines(bytes).drop_last().push(
            byte_lines(bytes).last() + more,
        ),
    decreases more.len(),
{
    lemma_byte_lines_nonempty(bytes);
    if more.len() > 0 {
        let shorter = more.drop_last();
        lemma_byte_lines_extend(bytes, shorter);
        assert((bytes + more).drop_last() =~= bytes + shorter);
        assert(byte_lines(bytes + shorter).last().push(more.last()) =~= byte_lines(bytes).last()
            + more);
    }
}

/// The bytes that encode `c`.
spec fn char_bytes(c: char) -> Seq<u8> {
    encode_scalar(c as u32)
}

/// The encoding of a text grows by the encoding of a character added at its
/// end.
proof fn lemma_encode_push(text: Seq<char>, c: char)
    ensures
        encode_utf8(text.push(c)) == encode_utf8(text) + char_bytes(c),
    decreases text.len(),
{
    if text.len() == 0 {
        assert(encode_utf8(text.push(c).drop_first()) =~= Seq::<u8>::empty());
    } else {
        lemma_encode_push(text.drop_first(), c);
        assert(text.push(c).drop_first() =~= text.drop_first().push(c));
    }
}

/// The newline character is encoded as the newline byte, and no byte of
/// another character's encoding is the newline byte.
proof fn lemma_newline_encoding(c: char)
    ensures
        c == '\n' ==> char_bytes(c) == seq![NEWLINE],
        c != '\n' ==> forall|i: int|
            0 <= i < char_bytes(c).len() ==> (#[trigger] char_bytes(c)[i]) != NEWLINE,
{
    let scalar = c as u32;
    char_is_scalar(c);
    assert(scalar <= 0x7F ==> ((scalar & 0x7F) as u8 == 0x0Au8 <==> scalar == 0x0Au32))
        by (bit_vector);
    assert((0xC0u8 | ((scalar >> 6) & 0x1F) as u8) != 0x0Au8) by (bit_vector);
    assert((0xE0u8 | ((scalar >> 12) & 0x0F) as u8) != 0x0Au8) by (bit_vector);
    assert((0xF0u8 | ((scalar >> 18) & 0x7) as u8) != 0x0Au8) by (bit_vector);
    assert((0x80u8 | (scalar & 0x3F) as u8) != 0x0Au8) by (bit_vector);
    assert((0x80u8 | ((scalar >> 6) & 0x3F) as u8) != 0x0Au8) by (bit_vector);
    assert((0x80u8 | ((scalar >> 12) & 0x3F) as u8) != 0x0Au8) by (bit_vector);
}

/// The lines of a text's encoding are the encodings of the text's lines.
proof fn lemma_byte_lines_of_text(text: Seq<char>)
    ensures
        byte_lines(encode_utf8(text)).len() == lines_of(text).len(),
        forall|k: int|
            0 <= k < lines_of(text).len() ==> #[trigger] byte_lines(encode_utf8(text))[k]
                == encode_utf8(lines_of(text)[k]),
    decreases text.len(),
{
    if text.len() > 0 {
        let shorter = text.drop_last();
        let c = text.last();
        assert(shorter.push(c) =~= text);
        lemma_byte_lines_of_text(shorter);
        lemma_encode_push(shorter, c);
        lemma_newline_encoding(c);
        lemma_line_count(shorter);
        let bytes = encode_utf8(shorter);
        let more = char_bytes(c);
        if c == '\n' {
            assert(bytes + more =~= bytes.push(NEWLINE));
            assert(bytes.push(NEWLINE).drop_last() =~= bytes);
        } else {
            lemma_byte_lines_extend(bytes, more);
            lemma_encode_push(lines_of(shorter).last(), c);
        }
    }
}

/// The offset after a one-byte character is a boundary.
proof fn lemma_boundary_after_ascii(bytes: Seq<u8>, at: int)
    requires
        valid_utf8(bytes),
        0 <= at < bytes.len(),
        bytes[at] <= 0x7F,
    ensures
        is_char_boundary(bytes, at),
        is_char_boundary(bytes, at + 1),
{
    is_char_boundary_iff_is_leading_byte(bytes, at);
    valid_utf8_split(bytes, at);
    assert(valid_utf8(pop_first_scalar(bytes.subrange(at, bytes.len() as int))));
    if at + 1 == bytes.len() {
        is_char_boundary_start_end_of_seq(bytes);
    } else {
        is_char_boundary_iff_is_leading_byte(bytes, at + 1);
    }
}

/// The lines of `text`, in order, each a part of `text`: one more than the
/// text has newlines.
pub fn split_lines<'a>(text: &'a str) -> (lines: Vec<&'a str>)
    ensures
        lines@.len() == lines_of(text@).len(),
        forall|k: int| 0 <= k < lines@.len() ==> (#[trigger] lines@[k])@ == lines_of(text@)[k],
        lines@.len() == newline_count(text@) + 1,
{
    let bytes: &[u8] = text.as_bytes();
    let mut lines: Vec<&'a str> = Vec::new();
    let mut start: usize = 0;
    let mut at: usize = 0;
    proof {
        encode_utf8_valid_utf8(text@);
        lemma_ends_are_boundaries(text@);
    }
    while at < bytes.len()
        invariant
            bytes@ == encode_utf8(text@),
            valid_utf8(bytes@),
            start <= at <= bytes@.len(),
            is_char_boundary(bytes@, start as int),
            byte_lines(bytes@.take(at as int)).len() == lines@.len() + 1,
            forall|k: int|
                0 <= k < lines@.len() ==> encode_utf8((#[trigger] lines@[k])@) == byte_lines(
                    bytes@.take(at as int),
                )[k],
            byte_lines(bytes@.take(at as int)).last() == bytes@.subrange(start as int, at as int),
        decreases bytes@.len() - at,
    {
        proof {
            assert(bytes@.take(at + 1).drop_last() =~= bytes@.take(at as int));
        }
        if bytes[at] == NEWLINE {
            proof {
                lemma_boundary_after_ascii(bytes@, at as int);
                lemma_slice_bytes(text@, start as int, at as int);
            }
            let line: &'a str = slice(text, start, at);
            lines.push(line);
            start = at + 1;
        }
        at = at + 1;
    }
    proof {
        assert(bytes@.take(at as int) =~= bytes@);
        lemma_ends_are_boundaries(text@);
        lemma_slice_bytes(text@, start as int, at as int);
        lemma_byte_lines_of_text(text@);
        lemma_line_count(text@);
    }
    let line: &'a str = slice(text, start, at);
    lines.push(line);
    proof {
        assert forall|k: int| 0 <= k < lines@.len() implies (#[trigger] lines@[k])@ == lines_of(
            text@,
        )[k] by {
            encode_utf8_decode_utf8(lines@[k]@);
            encode_utf8_decode_utf8(lines_of(text@)[k]);
        }
    }
    lines
}

} // verus!
