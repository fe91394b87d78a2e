//! What holds among the characters of a text holds among its bytes.
//!
//! The library searches the bytes of a text and says what it found in terms
//! of its characters. These are the facts that carry the one over to the
//! other.

use crate::encoding::{
    lemma_boundary_after_prefix, lemma_boundary_in_rest, lemma_bytes_of_character,
    lemma_encoding_of_joined, lemma_encoding_without,
};
use crate::text::{
    byte_lines, lines_of, next_of, occurs_at, occurs_in, without_last, CARRIAGE_RETURN,
    LINE_FEED,
};
use vstd::prelude::*;
use vstd::utf8::*;

verus! {

/// A text that is not empty stands in another only where a character of the
/// other begins.
pub proof fn lemma_occurrence_begins_a_character(text: Seq<u8>, part: Seq<u8>, at: int)
    requires
        valid_utf8(text),
        valid_utf8(part),
        part.len() > 0,
        occurs_at(text, part, at),
    ensures
        is_char_boundary(text, at),
{
    assert(text.subrange(at, at + part.len())[0] == text[at]);
    is_char_boundary_iff_not_is_continuation_byte(part, 0);
    is_char_boundary_iff_not_is_continuation_byte(text, at);
}

/// One text stands in another byte for byte just when it stands in it
/// character for character.
pub proof fn lemma_occurs_in_characters(text: Seq<char>, part: Seq<char>)
    ensures
        occurs_in(encode_utf8(text), encode_utf8(part)) <==> occurs_in(text, part),
{
    let bytes = encode_utf8(text);
    let part_bytes = encode_utf8(part);
    encode_utf8_valid_utf8(text);
    encode_utf8_valid_utf8(part);
    encode_utf8_decode_utf8(text);
    encode_utf8_decode_utf8(part);
    if occurs_in(text, part) {
        let i = choose|i: int| occurs_at(text, part, i);
        let before = text.subrange(0, i);
        let after = text.subrange(i + part.len(), text.len() as int);
        assert(text =~= before + part + after) by {
            assert(part =~= text.subrange(i, i + part.len()));
        }
        lemma_encoding_of_joined(before + part, after);
        lemma_encoding_of_joined(before, part);
        let at = encode_utf8(before).len() as int;
        assert(bytes.subrange(at, at + part_bytes.len()) =~= part_bytes);
        assert(occurs_at(bytes, part_bytes, at));
    }
    if occurs_in(bytes, part_bytes) {
        if part.len() == 0 {
            assert(text.subrange(0, 0) =~= part);
            assert(occurs_at(text, part, 0));
        } else {
            let at = choose|at: int| occurs_at(bytes, part_bytes, at);
            assert(part_bytes.len() > 0) by {
                if part_bytes.len() == 0 {
                    assert(part_bytes =~= Seq::<u8>::empty());
                    assert(decode_utf8(part_bytes) =~= Seq::<char>::empty());
                }
            }
            lemma_occurrence_begins_a_character(bytes, part_bytes, at);
            let rest = bytes.subrange(at, bytes.len() as int);
            lemma_boundary_in_rest(bytes, at, at);
            assert(rest.subrange(0, part_bytes.len() as int) =~= part_bytes);
            lemma_boundary_after_prefix(rest, part_bytes);
            decode_utf8_split(bytes, at);
            decode_utf8_split(rest, part_bytes.len() as int);
            let before = decode_utf8(bytes.subrange(0, at));
            let after = decode_utf8(rest.subrange(part_bytes.len() as int, rest.len() as int));
            assert(text =~= before + part + after);
            assert(text.subrange(before.len() as int, before.len() as int + part.len()) =~= part);
            assert(occurs_at(text, part, before.len() as int));
        }
    }
}

/// The encoding of each of `texts`, in their order.
pub open spec fn encoded_each(texts: Seq<Seq<char>>) -> Seq<Seq<u8>> {
    texts.map_values(|text: Seq<char>| encode_utf8(text))
}

/// `next_of` gives the first `item` at or after `from`, or the end.
pub proof fn lemma_next_of_is_first<T>(text: Seq<T>, item: T, from: int)
    requires
        0 <= from <= text.len(),
    ensures
        from <= next_of(text, item, from) <= text.len(),
        forall|i: int| from <= i < next_of(text, item, from) ==> text[i] != item,
        next_of(text, item, from) < text.len() ==> text[next_of(text, item, from)] == item,
    decreases text.len() - from,
{
    if from < text.len() && text[from] != item {
        lemma_next_of_is_first(text, item, from + 1);
    }
}

/// The first `item` at or after `from`, or the end where there is none, is
/// what `next_of` gives.
pub proof fn lemma_first_is_next_of<T>(text: Seq<T>, item: T, from: int, end: int)
    requires
        0 <= from <= end <= text.len(),
        forall|i: int| from <= i < end ==> text[i] != item,
        end < text.len() ==> text[end] == item,
    ensures
        next_of(text, item, from) == end,
    decreases end - from,
{
    if from < end {
        lemma_first_is_next_of(text, item, from + 1, end);
    }
}

/// A line loses its carriage return in bytes as it does in characters.
pub proof fn lemma_without_last_in_bytes(line: Seq<char>)
    ensures
        without_last(encode_utf8(line), CARRIAGE_RETURN) == encode_utf8(without_last(line, '\r')),
{
    if line.len() > 0 {
        let front = line.drop_last();
        let last = line.last();
        assert(line =~= front + seq![last]);
        lemma_encoding_of_joined(front, seq![last]);
        lemma_bytes_of_character(last);
        let tail = encode_utf8(seq![last]);
        assert(encode_utf8(line).last() == tail[tail.len() - 1]);
        if last == '\r' {
            assert(encode_utf8(line).drop_last() =~= encode_utf8(front));
        } else {
            char_is_scalar(last);
            char_u32_cast(last, last as u32);
            char_u32_cast('\r', '\r' as u32);
            assert(tail[tail.len() - 1] != CARRIAGE_RETURN);
        }
    }
}

/// The lines of a text are the same in bytes as in characters: the bytes of
/// the lines are the lines of the bytes.
pub proof fn lemma_lines_in_bytes(text: Seq<char>)
    ensures
        byte_lines(encode_utf8(text)) == encoded_each(lines_of(text)),
    decreases text.len(),
{
    let bytes = encode_utf8(text);
    if text.len() == 0 {
        assert(byte_lines(bytes) =~= encoded_each(lines_of(text)));
    } else {
        let end = next_of(text, '\n', 0);
        lemma_next_of_is_first(text, '\n', 0);
        let head = text.take(end);
        let rest = text.skip(end);
        assert(text =~= head + rest);
        lemma_encoding_of_joined(head, rest);
        lemma_encoding_without(head, '\n');
        let cut = encode_utf8(head).len() as int;
        lemma_bytes_of_character(text[0]);
        assert(bytes.len() > 0) by {
            assert(text =~= seq![text[0]] + text.drop_first());
            lemma_encoding_of_joined(seq![text[0]], text.drop_first());
        }
        if end < text.len() {
            let after = text.skip(end + 1);
            assert(rest =~= seq!['\n'] + after);
            lemma_encoding_of_joined(seq!['\n'], after);
            lemma_bytes_of_character('\n');
            assert(bytes[cut] == LINE_FEED);
            lemma_first_is_next_of(bytes, LINE_FEED, 0, cut);
            assert(bytes.take(cut) =~= encode_utf8(head));
            assert(bytes.skip(cut + 1) =~= encode_utf8(after));
            lemma_without_last_in_bytes(head);
            lemma_lines_in_bytes(after);
            assert(byte_lines(bytes) =~= encoded_each(lines_of(text)));
        } else {
            assert(head =~= text);
            lemma_first_is_next_of(bytes, LINE_FEED, 0, cut);
            assert(byte_lines(bytes) =~= encoded_each(lines_of(text)));
        }
    }
}

} // verus!
