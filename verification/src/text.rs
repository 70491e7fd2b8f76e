//! Texts as UTF-8 byte sequences: character boundaries and slicing.

use vstd::prelude::*;
use vstd::string::*;
use vstd::utf8::*;

verus! {

/// The bytes that a text is stored as: its UTF-8 encoding.
pub open spec fn bytes_of(text: Seq<char>) -> Seq<u8> {
    encode_utf8(text)
}

/// Whether `offset` lies where a character of `bytes` starts, or at the end
/// of `bytes`.
pub open spec fn on_boundary(bytes: Seq<u8>, offset: int) -> bool {
    &&& 0 <= offset <= bytes.len()
    &&& offset < bytes.len() ==> !is_continuation_byte(bytes[offset])
}

/// How many bytes the character takes whose first byte is `byte`.
pub open spec fn char_width(byte: u8) -> int {
    if byte < 0x80 {
        1
    } else if byte < 0xe0 {
        2
    } else if byte < 0xf0 {
        3
    } else {
        4
    }
}

/// In well-formed UTF-8 the boundaries found by looking at one byte are the
/// boundaries between the encoded characters.
pub proof fn lemma_boundary_is_char_boundary(bytes: Seq<u8>, offset: int)
    requires
        valid_utf8(bytes),
    ensures
        on_boundary(bytes, offset) == is_char_boundary(bytes, offset),
{
    if 0 <= offset < bytes.len() {
        is_char_boundary_iff_not_is_continuation_byte(bytes, offset);
    } else if offset == bytes.len() {
        is_char_boundary_start_end_of_seq(bytes);
    } else {
        reveal_with_fuel(is_char_boundary, 2);
    }
}

/// The bytes of every text are well-formed UTF-8.
pub proof fn lemma_bytes_of_valid(text: Seq<char>)
    ensures
        valid_utf8(bytes_of(text)),
{
    encode_utf8_valid_utf8(text);
}

/// After a character that starts at `offset` the next boundary comes
/// `char_width` bytes later, and every byte in between continues the character.
pub proof fn lemma_next_boundary(bytes: Seq<u8>, offset: int)
    requires
        valid_utf8(bytes),
        on_boundary(bytes, offset),
        offset < bytes.len(),
    ensures
        on_boundary(bytes, offset + char_width(bytes[offset])),
        forall|k: int|
            offset < k < offset + char_width(bytes[offset]) ==> is_continuation_byte(
                #[trigger] bytes[k],
            ),
    decreases bytes.len(),
{
    let width = length_of_first_scalar(bytes);
    let rest = pop_first_scalar(bytes);
    assert(valid_first_scalar(bytes));
    assert(valid_utf8(rest));
    if offset == 0 {
        assert(width == char_width(bytes[0]));
        if width < bytes.len() {
            assert(valid_first_scalar(rest));
            assert(rest[0] == bytes[width]);
        }
    } else {
        lemma_boundary_is_char_boundary(bytes, offset);
        reveal_with_fuel(is_char_boundary, 2);
        assert(is_char_boundary(rest, offset - width));
        lemma_boundary_is_char_boundary(rest, offset - width);
        lemma_next_boundary(rest, offset - width);
        let next = offset + char_width(bytes[offset]);
        assert(rest[offset - width] == bytes[offset]);
        assert forall|k: int| offset < k < next implies is_continuation_byte(
            #[trigger] bytes[k],
        ) by {
            assert(rest[k - width] == bytes[k]);
        }
        if next < bytes.len() {
            assert(rest[next - width] == bytes[next]);
        }
    }
}

/// The part of `text` between two of its boundaries.
pub fn slice<'a>(text: &'a str, from: usize, to: usize) -> (part: &'a str)
    requires
        from <= to,
        on_boundary(bytes_of(text@), from as int),
        on_boundary(bytes_of(text@), to as int),
    ensures
        bytes_of(part@) == bytes_of(text@).subrange(from as int, to as int),
        part@ == decode_utf8(bytes_of(text@).subrange(from as int, to as int)),
{
    proof {
        lemma_bytes_of_valid(text@);
        lemma_boundary_is_char_boundary(bytes_of(text@), to as int);
    }
    let (head, _) = text.split_at(to);
    proof {
        lemma_bytes_of_valid(head@);
        lemma_boundary_is_char_boundary(bytes_of(head@), from as int);
    }
    let (_, part) = head.split_at(from);
    proof {
        assert(bytes_of(part@) =~= bytes_of(text@).subrange(from as int, to as int));
        encode_utf8_decode_utf8(part@);
    }
    part
}

/// The bytes between two boundaries of well-formed UTF-8 are well-formed
/// UTF-8.
pub proof fn lemma_part_is_valid(bytes: Seq<u8>, from: int, to: int)
    requires
        valid_utf8(bytes),
        from <= to,
        on_boundary(bytes, from),
        on_boundary(bytes, to),
    ensures
        valid_utf8(bytes.subrange(from, to)),
{
    lemma_boundary_is_char_boundary(bytes, to);
    valid_utf8_split(bytes, to);
    let head = bytes.subrange(0, to);
    lemma_boundary_is_char_boundary(head, from);
    valid_utf8_split(head, from);
    assert(head.subrange(from, head.len() as int) =~= bytes.subrange(from, to));
}

/// Well-formed UTF-8 decodes to no character only where it has no byte.
pub proof fn lemma_decoded_is_empty(bytes: Seq<u8>)
    requires
        valid_utf8(bytes),
    ensures
        decode_utf8(bytes).len() == 0 <==> bytes.len() == 0,
{
}

/// Two pieces of well-formed UTF-8 decode, joined, to the characters of the
/// first followed by those of the second.
pub proof fn lemma_decode_joined(first: Seq<u8>, second: Seq<u8>)
    requires
        valid_utf8(first),
        valid_utf8(second),
    ensures
        valid_utf8(first + second),
        decode_utf8(first + second) == decode_utf8(first) + decode_utf8(second),
{
    let both = first + second;
    let at = first.len() as int;
    valid_utf8_concat(first, second);
    lemma_boundary_is_char_boundary(second, 0);
    if second.len() > 0 {
        assert(both[at] == second[0]);
    }
    lemma_boundary_is_char_boundary(both, at);
    decode_utf8_split(both, at);
    assert(both.subrange(0, at) =~= first);
    assert(both.subrange(at, both.len() as int) =~= second);
}

} // verus!
