//! Finding one text in another, and telling the lines of a text apart.
//!
//! A text is a sequence of characters. In memory it is the bytes of its
//! UTF-8 encoding, and that is where the work is done: offsets and lengths
//! count bytes, as `str::len` does.

use crate::encoding::{lemma_boundaries_around_ascii, slice};
use crate::in_bytes::{encoded_each, lemma_lines_in_bytes, lemma_occurs_in_characters};
use vstd::prelude::*;
use vstd::utf8::*;

verus! {

/// The byte that ends a line.
pub const LINE_FEED: u8 = 0x0A;

/// The byte that may stand before a line feed and then belongs to the line
/// ending.
pub const CARRIAGE_RETURN: u8 = 0x0D;

/// Whether `part` stands in `text` at offset `at`, item for item.
pub open spec fn occurs_at<T>(text: Seq<T>, part: Seq<T>, at: int) -> bool {
    &&& 0 <= at
    &&& at + part.len() <= text.len()
    &&& text.subrange(at, at + part.len()) == part
}

/// Whether `part` stands anywhere in `text`.
pub open spec fn occurs_in<T>(text: Seq<T>, part: Seq<T>) -> bool {
    exists|at: int| occurs_at(text, part, at)
}

/// The bytes of each of `parts`, in their order.
pub open spec fn bytes_of_each(parts: Seq<&str>) -> Seq<Seq<u8>> {
    parts.map_values(|part: &str| encode_utf8(part@))
}

/// The characters of each of `parts`, in their order.
pub open spec fn texts_of_each(parts: Seq<&str>) -> Seq<Seq<char>> {
    parts.map_values(|part: &str| part@)
}

/// The offset of the first `item` in `text` at or after `from`; the length of
/// `text` where there is none.
pub open spec fn next_of<T>(text: Seq<T>, item: T, from: int) -> int
    decreases text.len() - from,
{
    if 0 <= from < text.len() && text[from] != item {
        next_of(text, item, from + 1)
    } else {
        from
    }
}

/// `line` without the `back` it may end with.
pub open spec fn without_last<T>(line: Seq<T>, back: T) -> Seq<T> {
    if line.len() > 0 && line.last() == back {
        line.drop_last()
    } else {
        line
    }
}

/// The lines of `text`, where `feed` stands for the line feed and `back` for
/// the carriage return.
///
/// A line ends with a line feed, or with a carriage return and a line feed;
/// neither belongs to the line. What follows the last line feed is a line too,
/// unless it is empty; a carriage return at its end stays.
pub open spec fn split_lines<T>(text: Seq<T>, feed: T, back: T) -> Seq<Seq<T>>
    decreases text.len(),
{
    let end = next_of(text, feed, 0);
    if text.len() == 0 {
        Seq::empty()
    } else if 0 <= end < text.len() {
        seq![without_last(text.take(end), back)] + split_lines(text.skip(end + 1), feed, back)
    } else {
        seq![text]
    }
}

/// The lines of a text.
pub open spec fn lines_of(text: Seq<char>) -> Seq<Seq<char>> {
    split_lines(text, '\n', '\r')
}

/// The lines of a text, where the text and the lines are given by their
/// bytes.
pub open spec fn byte_lines(text: Seq<u8>) -> Seq<Seq<u8>> {
    split_lines(text, LINE_FEED, CARRIAGE_RETURN)
}

/// Whether a scan for `part` reports it at offset `at` of `text`: it stands
/// there, and a character of `text` begins there.
///
/// A text that is not empty can only stand where a character begins; the
/// empty text stands between any two bytes, and is reported only between two
/// characters.
pub open spec fn match_at(text: Seq<u8>, part: Seq<u8>, at: int) -> bool {
    occurs_at(text, part, at) && is_char_boundary(text, at)
}

/// The offsets at which a scan of `text` from offset `from` on reports `part`,
/// in rising order.
///
/// The scan goes from left to right and reports matches that do not overlap:
/// after a match it goes on where the match ends. After a match of the empty
/// text it goes on one byte further.
pub open spec fn match_starts(text: Seq<u8>, part: Seq<u8>, from: int) -> Seq<int>
    decreases text.len() + 1 - from,
{
    if from < 0 || from > text.len() {
        Seq::empty()
    } else if match_at(text, part, from) {
        seq![from] + match_starts(
            text,
            part,
            from + if part.len() == 0 {
                1
            } else {
                part.len() as int
            },
        )
    } else {
        match_starts(text, part, from + 1)
    }
}

/// Offsets as numbers without a bound.
pub open spec fn offsets(starts: Seq<usize>) -> Seq<int> {
    starts.map_values(|start: usize| start as int)
}

/// Whether `part` stands in `text` at offset `at`.
pub fn stands_at(text: &[u8], part: &[u8], at: usize) -> (found: bool)
    ensures
        found == occurs_at(text@, part@, at as int),
{
    if part.len() > text.len() || at > text.len() - part.len() {
        return false;
    }
    let mut matched: usize = 0;
    while matched < part.len()
        invariant
            matched <= part.len(),
            at + part.len() <= text.len(),
            forall|i: int| 0 <= i < matched ==> text[at + i] == part[i],
        decreases part.len() - matched,
    {
        if text[at + matched] != part[matched] {
            assert(text@.subrange(at as int, at + part.len())[matched as int]
                != part[matched as int]);
            return false;
        }
        matched += 1;
    }
    assert(text@.subrange(at as int, at + part.len()) =~= part@);
    true
}

/// Whether `part` stands anywhere in `text`. The empty text stands in every
/// text.
pub fn contains(text: &str, part: &str) -> (found: bool)
    ensures
        found == occurs_in(text@, part@),
{
    let hay = text.as_bytes();
    let needle = part.as_bytes();
    proof {
        lemma_occurs_in_characters(text@, part@);
    }
    if needle.len() > hay.len() {
        return false;
    }
    let last: usize = hay.len() - needle.len();
    let mut at: usize = 0;
    while at < last
        invariant
            at <= last,
            last + needle.len() == hay.len(),
            hay@ == encode_utf8(text@),
            needle@ == encode_utf8(part@),
            occurs_in(hay@, needle@) == occurs_in(text@, part@),
            forall|before: int| 0 <= before < at ==> !occurs_at(hay@, needle@, before),
        decreases last - at,
    {
        if stands_at(hay, needle, at) {
            return true;
        }
        at += 1;
    }
    stands_at(hay, needle, last)
}

/// Every offset of `text` at which `part` is found, scanning from left to
/// right for matches that do not overlap. The empty text is found before each
/// character and at the end.
pub fn find_all(text: &str, part: &str) -> (starts: Vec<usize>)
    ensures
        offsets(starts@) == match_starts(encode_utf8(text@), encode_utf8(part@), 0),
{
    let hay = text.as_bytes();
    let needle = part.as_bytes();
    let step: usize = if needle.len() == 0 {
        1
    } else {
        needle.len()
    };
    let mut starts: Vec<usize> = Vec::new();
    let mut at: usize = 0;
    assert(offsets(starts@) + match_starts(hay@, needle@, 0) =~= match_starts(hay@, needle@, 0));
    while at < hay.len()
        invariant
            at <= hay.len(),
            hay@ == encode_utf8(text@),
            needle@ == encode_utf8(part@),
            step == if needle.len() == 0 {
                1
            } else {
                needle.len()
            },
            match_starts(hay@, needle@, 0) == offsets(starts@) + match_starts(
                hay@,
                needle@,
                at as int,
            ),
        decreases hay.len() - at,
    {
        let ghost before = offsets(starts@);
        if text.is_char_boundary(at) && stands_at(hay, needle, at) {
            starts.push(at);
            assert(offsets(starts@) =~= before.push(at as int));
            assert(before + (seq![at as int] + match_starts(hay@, needle@, at + step))
                =~= before.push(at as int) + match_starts(hay@, needle@, at + step));
            at += step;
        } else {
            at += 1;
        }
    }
    let ghost before = offsets(starts@);
    proof {
        encode_utf8_valid_utf8(text@);
        is_char_boundary_start_end_of_seq(hay@);
        assert(match_starts(hay@, needle@, at + 1) =~= Seq::<int>::empty());
        assert(hay@.subrange(at as int, at as int) =~= Seq::<u8>::empty());
    }
    if needle.len() == 0 {
        starts.push(at);
        assert(needle@ =~= Seq::<u8>::empty());
        assert(offsets(starts@) =~= before.push(at as int));
        assert(before + (seq![at as int] + Seq::<int>::empty()) =~= before.push(at as int));
    } else {
        assert(before + Seq::<int>::empty() =~= before);
    }
    starts
}

/// The lines of `text`, each a part of `text` itself.
pub fn lines<'a>(text: &'a str) -> (found: Vec<&'a str>)
    ensures
        texts_of_each(found@) == lines_of(text@),
{
    let mut found: Vec<&'a str> = Vec::new();
    let mut rest: &'a str = text;
    assert(bytes_of_each(found@) + byte_lines(encode_utf8(rest@)) =~= byte_lines(
        encode_utf8(text@),
    ));
    while rest.as_bytes().len() > 0
        invariant
            byte_lines(encode_utf8(text@)) == bytes_of_each(found@) + byte_lines(
                encode_utf8(rest@),
            ),
        decreases encode_utf8(rest@).len(),
    {
        let bytes = rest.as_bytes();
        let mut end: usize = 0;
        while end < bytes.len() && bytes[end] != LINE_FEED
            invariant
                end <= bytes.len(),
                next_of(bytes@, LINE_FEED, 0) == next_of(bytes@, LINE_FEED, end as int),
            decreases bytes.len() - end,
        {
            end += 1;
        }
        let ghost before = bytes_of_each(found@);
        proof {
            encode_utf8_valid_utf8(rest@);
            is_char_boundary_start_end_of_seq(bytes@);
        }
        if end < bytes.len() {
            proof {
                lemma_boundaries_around_ascii(bytes@, end as int);
            }
            let line = if end > 0 && bytes[end - 1] == CARRIAGE_RETURN {
                proof {
                    lemma_boundaries_around_ascii(bytes@, end - 1);
                }
                slice(rest, 0, end - 1)
            } else {
                slice(rest, 0, end)
            };
            assert(encode_utf8(line@) =~= without_last(bytes@.take(end as int), CARRIAGE_RETURN));
            found.push(line);
            rest = slice(rest, end + 1, bytes.len());
            assert(encode_utf8(rest@) =~= bytes@.skip(end + 1));
            assert(bytes_of_each(found@) =~= before.push(encode_utf8(line@)));
        } else {
            found.push(rest);
            assert(bytes_of_each(found@) =~= before.push(bytes@));
            rest = slice(rest, end, end);
        }
    }
    proof {
        lemma_lines_in_bytes(text@);
        assert(bytes_of_each(found@) =~= encoded_each(lines_of(text@)));
        assert forall|i: int| 0 <= i < found@.len() implies found@[i]@ == lines_of(text@)[i] by {
            assert(bytes_of_each(found@)[i] == encoded_each(lines_of(text@))[i]);
            encode_utf8_decode_utf8(found@[i]@);
            encode_utf8_decode_utf8(lines_of(text@)[i]);
        }
        assert(texts_of_each(found@) =~= lines_of(text@));
    }
    found
}

} // verus!
