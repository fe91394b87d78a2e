//! Escape sequences: the bytes of a highlighted line that a terminal obeys
//! and does not show.

use crate::highlight::{highlighted, in_red, red_on, replaced, reset, spliced};
use crate::text::{match_at, match_starts, next_of, occurs_at};
use vstd::prelude::*;
use vstd::utf8::*;

verus! {

/// The byte that begins an escape sequence.
pub const ESCAPE: u8 = 0x1B;

/// The byte that ends an escape sequence for colour or style: `m`.
pub const END_OF_ESCAPE: u8 = 0x6D;

/// Whether `text` holds no escape byte.
pub open spec fn free_of_escapes(text: Seq<u8>) -> bool {
    forall|i: int| 0 <= i < text.len() ==> text[i] != ESCAPE
}

/// `text` as a terminal shows it: without its escape sequences, each of which
/// goes from an escape byte up to the next `m`.
pub open spec fn without_escapes(text: Seq<u8>) -> Seq<u8>
    decreases text.len(),
{
    let end = next_of(text, END_OF_ESCAPE, 0);
    if text.len() == 0 {
        Seq::empty()
    } else if text[0] != ESCAPE {
        seq![text[0]] + without_escapes(text.skip(1))
    } else if 0 <= end < text.len() {
        without_escapes(text.skip(end + 1))
    } else {
        Seq::empty()
    }
}

/// What holds no escape byte is shown as it is, and what follows it as it
/// would be shown alone.
pub proof fn lemma_shown_as_it_is(text: Seq<u8>, then: Seq<u8>)
    requires
        free_of_escapes(text),
    ensures
        without_escapes(text + then) == text + without_escapes(then),
    decreases text.len(),
{
    if text.len() == 0 {
        assert(text + then =~= then);
        assert(text + without_escapes(then) =~= without_escapes(then));
    } else {
        let rest = text.skip(1);
        assert((text + then).skip(1) =~= rest + then);
        assert((text + then)[0] == text[0]);
        lemma_shown_as_it_is(rest, then);
        assert(seq![text[0]] + (rest + without_escapes(then)) =~= text + without_escapes(then));
    }
}

/// The sequence that turns red on is not shown.
pub proof fn lemma_red_on_is_not_shown(then: Seq<u8>)
    ensures
        without_escapes(red_on() + then) == without_escapes(then),
{
    let text = red_on() + then;
    reveal_with_fuel(next_of, 6);
    assert(next_of(text, END_OF_ESCAPE, 0) == 4);
    assert(text.skip(5) =~= then);
}

/// The sequence that resets is not shown.
pub proof fn lemma_reset_is_not_shown(then: Seq<u8>)
    ensures
        without_escapes(reset() + then) == without_escapes(then),
{
    let text = reset() + then;
    reveal_with_fuel(next_of, 5);
    assert(next_of(text, END_OF_ESCAPE, 0) == 3);
    assert(text.skip(4) =~= then);
}

/// In a text without escape bytes no reset is found.
proof fn lemma_no_reset_found(text: Seq<u8>, from: int)
    requires
        free_of_escapes(text),
    ensures
        match_starts(text, reset(), from) == Seq::<int>::empty(),
    decreases text.len() + 1 - from,
{
    if 0 <= from <= text.len() {
        if occurs_at(text, reset(), from) {
            assert(text.subrange(from, from + 4)[0] == text[from]);
        }
        lemma_no_reset_found(text, from + 1);
    }
}

/// A text without escape bytes is put in red by the sequence that turns red
/// on before it and the one that resets after it, and by nothing else.
pub proof fn lemma_in_red_without_escapes(text: Seq<u8>)
    requires
        free_of_escapes(text),
    ensures
        in_red(text) == red_on() + text + reset(),
{
    lemma_no_reset_found(text, 0);
    assert(text.subrange(0, text.len() as int) =~= text);
}

/// What is shown of a line whose matches of `query` from `at` on are in red,
/// where the line holds no escape byte: the line.
proof fn lemma_red_marks_are_not_shown(line: Seq<u8>, query: Seq<u8>, at: int, from: int)
    requires
        free_of_escapes(line),
        0 <= from <= at,
        from <= line.len(),
    ensures
        without_escapes(
            spliced(line, match_starts(line, query, at), query.len() as int, in_red(query), from),
        ) == line.subrange(from, line.len() as int),
    decreases line.len() + 1 - at,
{
    let starts = match_starts(line, query, at);
    let whole = line.subrange(from, line.len() as int);
    if at > line.len() {
        assert(whole + Seq::<u8>::empty() =~= whole);
        lemma_shown_as_it_is(whole, Seq::empty());
        assert(without_escapes(Seq::<u8>::empty()) =~= Seq::<u8>::empty());
    } else if match_at(line, query, at) {
        let next = at + if query.len() == 0 {
            1
        } else {
            query.len() as int
        };
        let later = match_starts(line, query, next);
        let kept = line.subrange(from, at);
        let rest = spliced(line, later, query.len() as int, in_red(query), at + query.len());
        assert((seq![at] + later).drop_first() =~= later);
        assert(query =~= line.subrange(at, at + query.len()));
        lemma_in_red_without_escapes(query);
        lemma_red_marks_are_not_shown(line, query, next, at + query.len());
        assert(kept + in_red(query) + rest =~= kept + (red_on() + (query + (reset() + rest))));
        lemma_shown_as_it_is(kept, red_on() + (query + (reset() + rest)));
        lemma_red_on_is_not_shown(query + (reset() + rest));
        lemma_shown_as_it_is(query, reset() + rest);
        lemma_reset_is_not_shown(rest);
        assert(kept + (query + line.subrange(at + query.len(), line.len() as int)) =~= whole);
    } else {
        lemma_red_marks_are_not_shown(line, query, at + 1, from);
    }
}

/// A line without escape bytes that is highlighted with regard to case, in
/// red, is shown as the line: the emphasis adds nothing but escape sequences.
pub proof fn lemma_highlight_shows_the_line(line: Seq<char>, query: Seq<char>)
    requires
        free_of_escapes(encode_utf8(line)),
    ensures
        without_escapes(highlighted(line, query, false, in_red(encode_utf8(query))))
            == encode_utf8(line),
{
    let bytes = encode_utf8(line);
    lemma_red_marks_are_not_shown(bytes, encode_utf8(query), 0, 0);
    assert(bytes.subrange(0, bytes.len() as int) =~= bytes);
}

} // verus!
