//! The UTF-8 encoding of a text: where its characters begin and end, what
//! bytes they are made of, and cutting a text between two of them.
//!
//! Offsets into a text count bytes. A text can be cut only between two of its
//! characters; these are the facts about such places, and about the bytes in
//! between, that the rest of the library leans on.

use vstd::prelude::*;
use vstd::utf8::*;

verus! {

/// A place between two characters of a text is also such a place in the text
/// that is left when everything before an earlier such place is cut off, and
/// the other way round.
pub proof fn lemma_boundary_in_rest(text: Seq<u8>, cut: int, at: int)
    requires
        valid_utf8(text),
        is_char_boundary(text, cut),
        0 <= cut <= at <= text.len(),
    ensures
        valid_utf8(text.subrange(cut, text.len() as int)),
        is_char_boundary(text.subrange(cut, text.len() as int), at - cut) == is_char_boundary(
            text,
            at,
        ),
{
    let rest = text.subrange(cut, text.len() as int);
    valid_utf8_split(text, cut);
    if at < text.len() {
        is_char_boundary_iff_not_is_continuation_byte(text, at);
        is_char_boundary_iff_not_is_continuation_byte(rest, at - cut);
    } else {
        is_char_boundary_start_end_of_seq(text);
        is_char_boundary_start_end_of_seq(rest);
    }
}

/// A place between two characters of a text is also such a place in the text
/// that is left when everything after a later such place is cut off, and the
/// other way round.
pub proof fn lemma_boundary_in_front(text: Seq<u8>, cut: int, at: int)
    requires
        valid_utf8(text),
        is_char_boundary(text, cut),
        0 <= at <= cut <= text.len(),
    ensures
        valid_utf8(text.subrange(0, cut)),
        is_char_boundary(text.subrange(0, cut), at) == is_char_boundary(text, at),
{
    let front = text.subrange(0, cut);
    valid_utf8_split(text, cut);
    if at < cut {
        is_char_boundary_iff_not_is_continuation_byte(text, at);
        is_char_boundary_iff_not_is_continuation_byte(front, at);
    } else {
        is_char_boundary_start_end_of_seq(front);
    }
}

/// A byte below 0x80 is a character of its own: one begins where it stands
/// and the next where it ends.
pub proof fn lemma_boundaries_around_ascii(text: Seq<u8>, at: int)
    requires
        valid_utf8(text),
        0 <= at < text.len(),
        text[at] < 0x80,
    ensures
        is_char_boundary(text, at),
        is_char_boundary(text, at + 1),
{
    is_char_boundary_iff_not_is_continuation_byte(text, at);
    let rest = text.subrange(at, text.len() as int);
    lemma_boundary_in_rest(text, at, at + 1);
    assert(rest[0] == text[at]);
    assert(is_char_boundary(rest, 1)) by {
        reveal_with_fuel(is_char_boundary, 2);
    }
}

/// Where a text begins with a whole text, that beginning ends between two
/// characters.
pub proof fn lemma_boundary_after_prefix(text: Seq<u8>, prefix: Seq<u8>)
    requires
        valid_utf8(text),
        valid_utf8(prefix),
        prefix.len() <= text.len(),
        text.subrange(0, prefix.len() as int) == prefix,
    ensures
        is_char_boundary(text, prefix.len() as int),
    decreases prefix.len(),
{
    if prefix.len() > 0 {
        assert(text[0] == prefix[0]) by {
            assert(text.subrange(0, prefix.len() as int)[0] == text[0]);
        }
        let width = length_of_first_scalar(prefix);
        assert(width == length_of_first_scalar(text));
        assert(1 <= width <= prefix.len());
        let text_rest = pop_first_scalar(text);
        let prefix_rest = pop_first_scalar(prefix);
        assert(text_rest.subrange(0, prefix_rest.len() as int) =~= prefix_rest) by {
            assert forall|i: int| 0 <= i < prefix_rest.len() implies text_rest[i]
                == prefix_rest[i] by {
                assert(text.subrange(0, prefix.len() as int)[i + width] == text[i + width]);
            }
        }
        lemma_boundary_after_prefix(text_rest, prefix_rest);
    }
}

/// Where a whole text occurs in another, at a place between two of its
/// characters, the occurrence also ends between two characters.
pub proof fn lemma_boundary_after_occurrence(text: Seq<u8>, part: Seq<u8>, at: int)
    requires
        valid_utf8(text),
        valid_utf8(part),
        0 <= at,
        at + part.len() <= text.len(),
        text.subrange(at, at + part.len()) == part,
        is_char_boundary(text, at),
    ensures
        is_char_boundary(text, at + part.len()),
{
    let rest = text.subrange(at, text.len() as int);
    lemma_boundary_in_rest(text, at, at + part.len());
    assert(rest.subrange(0, part.len() as int) =~= text.subrange(at, at + part.len()));
    lemma_boundary_after_prefix(rest, part);
}

/// The encoding of two texts put together is their encodings put together.
pub proof fn lemma_encoding_of_joined(first: Seq<char>, second: Seq<char>)
    ensures
        encode_utf8(first + second) == encode_utf8(first) + encode_utf8(second),
    decreases first.len(),
{
    if first.len() == 0 {
        assert(first + second =~= second);
        assert(encode_utf8(first) + encode_utf8(second) =~= encode_utf8(second));
    } else {
        assert((first + second).drop_first() =~= first.drop_first() + second);
        lemma_encoding_of_joined(first.drop_first(), second);
        assert(encode_utf8(first + second) =~= encode_utf8(first) + encode_utf8(second));
    }
}

/// The bytes of one character: a character below U+0080 is the one byte of
/// its number, and every byte of any other character is 0x80 or more.
pub proof fn lemma_bytes_of_character(c: char)
    ensures
        encode_utf8(seq![c]) == encode_scalar(c as u32),
        encode_scalar(c as u32).len() >= 1,
        (c as u32) < 0x80 ==> encode_scalar(c as u32) == seq![c as u8],
        (c as u32) >= 0x80 ==> forall|i: int|
            0 <= i < encode_scalar(c as u32).len() ==> #[trigger] encode_scalar(c as u32)[i]
                >= 0x80,
{
    let one = seq![c];
    let bytes = encode_utf8(one);
    assert(bytes =~= encode_scalar(c as u32)) by {
        assert(one.drop_first() =~= Seq::<char>::empty());
        reveal_with_fuel(encode_utf8, 2);
    }
    if (c as u32) < 0x80 {
        is_ascii_chars_encode_utf8(one);
        assert(bytes =~= seq![c as u8]);
    } else {
        encode_utf8_first_scalar(one);
    }
}

/// A text that does not hold a character below U+0080 does not hold its byte
/// either.
pub proof fn lemma_encoding_without(text: Seq<char>, c: char)
    requires
        (c as u32) < 0x80,
        forall|i: int| 0 <= i < text.len() ==> text[i] != c,
    ensures
        forall|j: int| 0 <= j < encode_utf8(text).len() ==> encode_utf8(text)[j] != c as u8,
    decreases text.len(),
{
    if text.len() > 0 {
        let first = encode_scalar(text[0] as u32);
        let rest = encode_utf8(text.drop_first());
        lemma_bytes_of_character(text[0]);
        lemma_encoding_without(text.drop_first(), c);
        assert(text[0] != c);
        assert forall|j: int| 0 <= j < encode_utf8(text).len() implies encode_utf8(text)[j]
            != c as u8 by {
            if j < first.len() {
                assert(encode_utf8(text)[j] == first[j]);
                char_is_scalar(text[0]);
                char_u32_cast(text[0], text[0] as u32);
                char_u32_cast(c, c as u32);
            } else {
                assert(encode_utf8(text)[j] == rest[j - first.len()]);
            }
        }
    }
}

/// The part of `text` from offset `from` up to offset `to`.
pub fn slice<'a>(text: &'a str, from: usize, to: usize) -> (part: &'a str)
    requires
        from <= to <= encode_utf8(text@).len(),
        is_char_boundary(encode_utf8(text@), from as int),
        is_char_boundary(encode_utf8(text@), to as int),
    ensures
        encode_utf8(part@) == encode_utf8(text@).subrange(from as int, to as int),
{
    proof {
        encode_utf8_valid_utf8(text@);
        lemma_boundary_in_front(encode_utf8(text@), to as int, from as int);
    }
    let (front, _) = text.split_at(to);
    let (_, part) = front.split_at(from);
    part
}

} // verus!
