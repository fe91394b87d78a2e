//! Showing a line with its matches set off.
//!
//! A highlighted line is the line with a mark put in at each match. The mark
//! is the matched text as the terminal is to show it: in red where colour is
//! in use, bare where it is not.

use crate::encoding::{lemma_boundary_after_occurrence, lemma_encoding_of_joined, slice};
use crate::case::folded;
use crate::text::{find_all, match_at, match_starts, offsets};
use colored::Colorize;
use vstd::prelude::*;
use vstd::utf8::*;

verus! {

/// `line` with `mark` put in at each offset of `starts`, in place of the
/// `skip` bytes that follow the offset. What is kept of `line` begins at
/// offset `from`.
pub open spec fn spliced(
    line: Seq<u8>,
    starts: Seq<int>,
    skip: int,
    mark: Seq<u8>,
    from: int,
) -> Seq<u8>
    decreases starts.len(),
{
    if starts.len() == 0 {
        line.subrange(from, line.len() as int)
    } else {
        line.subrange(from, starts[0]) + mark + spliced(
            line,
            starts.drop_first(),
            skip,
            mark,
            starts[0] + skip,
        )
    }
}

/// Whether `line` can be cut as `spliced` cuts it: each part that is kept
/// begins and ends between two characters of `line`, at or before the end of
/// `line`, and does not end before it begins.
pub open spec fn splice_fits(line: Seq<u8>, starts: Seq<int>, skip: int, from: int) -> bool
    decreases starts.len(),
{
    if !(0 <= from <= line.len() && is_char_boundary(line, from)) {
        false
    } else if starts.len() == 0 {
        true
    } else {
        &&& from <= starts[0] <= line.len()
        &&& is_char_boundary(line, starts[0])
        &&& splice_fits(line, starts.drop_first(), skip, starts[0] + skip)
    }
}

/// `text` with `to` in place of each match of `from`.
pub open spec fn replaced(text: Seq<u8>, from: Seq<u8>, to: Seq<u8>) -> Seq<u8> {
    spliced(text, match_starts(text, from, 0), from.len() as int, to, 0)
}

/// The bytes that turn the terminal's text red: escape, `[31m`.
pub open spec fn red_on() -> Seq<u8> {
    seq![0x1Bu8, 0x5Bu8, 0x33u8, 0x31u8, 0x6Du8]
}

/// The bytes that turn every colour and style off: escape, `[0m`.
pub open spec fn reset() -> Seq<u8> {
    seq![0x1Bu8, 0x5Bu8, 0x30u8, 0x6Du8]
}

/// `text` as a terminal is told to show it in red: red is turned on, then
/// comes the text, then everything is turned off. Where the text itself turns
/// everything off, red is turned on again right after.
pub open spec fn in_red(text: Seq<u8>) -> Seq<u8> {
    red_on() + replaced(text, reset(), reset() + red_on()) + reset()
}

/// The offsets at which `line` is cut to highlight `query` in it: where the
/// query, as it is compared, is found in the line, as it is compared.
pub open spec fn cuts(line: Seq<char>, query: Seq<char>, ignore_case: bool) -> Seq<int> {
    match_starts(
        encode_utf8(folded(line, ignore_case)),
        encode_utf8(folded(query, ignore_case)),
        0,
    )
}

/// Whether `line` can be highlighted for `query`.
///
/// With regard to case it always can. Without, the offsets are those of the
/// line in lower case, which need not be places between two characters of the
/// line as it stands, and the bytes left out after each are as many as the
/// query has as it stands.
pub open spec fn can_highlight(line: Seq<char>, query: Seq<char>, ignore_case: bool) -> bool {
    splice_fits(
        encode_utf8(line),
        cuts(line, query, ignore_case),
        encode_utf8(query).len() as int,
        0,
    )
}

/// The bytes of `line` highlighted for `query`, with `mark` put in at each
/// match.
pub open spec fn highlighted(
    line: Seq<char>,
    query: Seq<char>,
    ignore_case: bool,
    mark: Seq<u8>,
) -> Seq<u8> {
    spliced(
        encode_utf8(line),
        cuts(line, query, ignore_case),
        encode_utf8(query).len() as int,
        mark,
        0,
    )
}

/// Whether `out` is `line` highlighted for `query`: each match is marked with
/// the query as it is compared, and either all of the marks are in red or all
/// of them are bare.
pub open spec fn is_highlight(
    out: Seq<char>,
    line: Seq<char>,
    query: Seq<char>,
    ignore_case: bool,
) -> bool {
    let shown = encode_utf8(folded(query, ignore_case));
    ||| encode_utf8(out) == highlighted(line, query, ignore_case, in_red(shown))
    ||| encode_utf8(out) == highlighted(line, query, ignore_case, shown)
}

/// A line can be cut at the matches of a query in the line itself, leaving
/// out the query's length after each: with regard to case every line can be
/// highlighted.
pub proof fn lemma_own_matches_fit(line: Seq<u8>, query: Seq<u8>, at: int, from: int)
    requires
        valid_utf8(line),
        valid_utf8(query),
        0 <= from <= at,
        from <= line.len(),
        is_char_boundary(line, from),
    ensures
        splice_fits(line, match_starts(line, query, at), query.len() as int, from),
    decreases line.len() + 1 - at,
{
    if at > line.len() {
    } else if match_at(line, query, at) {
        let next = at + if query.len() == 0 {
            1
        } else {
            query.len() as int
        };
        let later = match_starts(line, query, next);
        lemma_boundary_after_occurrence(line, query, at);
        lemma_own_matches_fit(line, query, next, at + query.len());
        assert((seq![at] + later).drop_first() =~= later);
    } else {
        lemma_own_matches_fit(line, query, at + 1, from);
    }
}

/// Marking the matches of a query in a line with the query itself gives the
/// part of the line that was to be kept: nothing but the marks is added to a
/// line, and nothing but the matches is taken from it.
pub proof fn lemma_bare_marks_change_nothing(line: Seq<u8>, query: Seq<u8>, at: int, from: int)
    requires
        0 <= from <= at,
        from <= line.len(),
    ensures
        spliced(line, match_starts(line, query, at), query.len() as int, query, from)
            == line.subrange(from, line.len() as int),
    decreases line.len() + 1 - at,
{
    if at > line.len() {
    } else if match_at(line, query, at) {
        let next = at + if query.len() == 0 {
            1
        } else {
            query.len() as int
        };
        let later = match_starts(line, query, next);
        lemma_bare_marks_change_nothing(line, query, next, at + query.len());
        assert((seq![at] + later).drop_first() =~= later);
        assert(line.subrange(from, at) + query + line.subrange(
            at + query.len(),
            line.len() as int,
        ) =~= line.subrange(from, line.len() as int)) by {
            assert(query =~= line.subrange(at, at + query.len()));
        }
    } else {
        lemma_bare_marks_change_nothing(line, query, at + 1, from);
    }
}

/// With regard to case every line can be highlighted.
pub proof fn lemma_can_highlight_with_case(line: Seq<char>, query: Seq<char>)
    ensures
        can_highlight(line, query, false),
{
    encode_utf8_valid_utf8(line);
    encode_utf8_valid_utf8(query);
    is_char_boundary_start_end_of_seq(encode_utf8(line));
    lemma_own_matches_fit(encode_utf8(line), encode_utf8(query), 0, 0);
}

/// With regard to case, a highlighted line without the emphasis, that is,
/// with the bare query where the marked query stands, is the line.
pub proof fn lemma_highlight_without_emphasis(out: Seq<char>, line: Seq<char>, query: Seq<char>)
    requires
        encode_utf8(out) == highlighted(line, query, false, encode_utf8(query)),
    ensures
        out == line,
{
    lemma_bare_marks_change_nothing(encode_utf8(line), encode_utf8(query), 0, 0);
    assert(encode_utf8(line).subrange(0, encode_utf8(line).len() as int) =~= encode_utf8(line));
    encode_utf8_decode_utf8(out);
    encode_utf8_decode_utf8(line);
}

/// Whether `line` can be cut at the offsets `starts`, leaving out `skip` bytes
/// after each.
pub fn marks_fit(line: &str, starts: &Vec<usize>, skip: usize) -> (fits: bool)
    ensures
        fits == splice_fits(encode_utf8(line@), offsets(starts@), skip as int, 0),
{
    let len = line.as_bytes().len();
    let mut from: usize = 0;
    let mut i: usize = 0;
    proof {
        encode_utf8_valid_utf8(line@);
        is_char_boundary_start_end_of_seq(encode_utf8(line@));
        assert(offsets(starts@).skip(0) =~= offsets(starts@));
    }
    while i < starts.len()
        invariant
            i <= starts.len(),
            len == encode_utf8(line@).len(),
            from <= len,
            is_char_boundary(encode_utf8(line@), from as int),
            splice_fits(encode_utf8(line@), offsets(starts@), skip as int, 0) == splice_fits(
                encode_utf8(line@),
                offsets(starts@).skip(i as int),
                skip as int,
                from as int,
            ),
        decreases starts.len() - i,
    {
        let start = starts[i];
        let ghost rest = offsets(starts@).skip(i as int);
        assert(rest[0] == start);
        assert(rest.drop_first() =~= offsets(starts@).skip(i + 1));
        if start < from || start > len || !line.is_char_boundary(start) {
            return false;
        }
        if skip > len - start {
            assert(!splice_fits(encode_utf8(line@), rest.drop_first(), skip as int, start + skip));
            return false;
        }
        from = start + skip;
        if !line.is_char_boundary(from) {
            assert(!splice_fits(encode_utf8(line@), rest.drop_first(), skip as int, start + skip));
            return false;
        }
        i += 1;
    }
    true
}

/// `line` with `mark` put in at each offset of `starts`, in place of the
/// `skip` bytes that follow the offset.
pub fn splice(line: &str, starts: &Vec<usize>, skip: usize, mark: &str) -> (out: String)
    requires
        splice_fits(encode_utf8(line@), offsets(starts@), skip as int, 0),
    ensures
        encode_utf8(out@) == spliced(
            encode_utf8(line@),
            offsets(starts@),
            skip as int,
            encode_utf8(mark@),
            0,
        ),
{
    let len = line.as_bytes().len();
    let mut out = String::new();
    let mut from: usize = 0;
    let mut i: usize = 0;
    proof {
        encode_utf8_valid_utf8(line@);
        assert(offsets(starts@).skip(0) =~= offsets(starts@));
        assert(encode_utf8(out@) + spliced(
            encode_utf8(line@),
            offsets(starts@),
            skip as int,
            encode_utf8(mark@),
            0,
        ) =~= spliced(encode_utf8(line@), offsets(starts@), skip as int, encode_utf8(mark@), 0));
    }
    while i < starts.len()
        invariant
            i <= starts.len(),
            len == encode_utf8(line@).len(),
            splice_fits(
                encode_utf8(line@),
                offsets(starts@).skip(i as int),
                skip as int,
                from as int,
            ),
            spliced(encode_utf8(line@), offsets(starts@), skip as int, encode_utf8(mark@), 0)
                == encode_utf8(out@) + spliced(
                encode_utf8(line@),
                offsets(starts@).skip(i as int),
                skip as int,
                encode_utf8(mark@),
                from as int,
            ),
        decreases starts.len() - i,
    {
        let start = starts[i];
        let ghost rest = offsets(starts@).skip(i as int);
        let ghost before = out@;
        assert(rest[0] == start);
        assert(rest.drop_first() =~= offsets(starts@).skip(i + 1));
        assert(splice_fits(encode_utf8(line@), rest.drop_first(), skip as int, start + skip));
        let kept = slice(line, from, start);
        out.append(kept);
        out.append(mark);
        proof {
            lemma_encoding_of_joined(before, kept@);
            lemma_encoding_of_joined(before + kept@, mark@);
            assert(encode_utf8(out@) + spliced(
                encode_utf8(line@),
                rest.drop_first(),
                skip as int,
                encode_utf8(mark@),
                start + skip,
            ) =~= encode_utf8(before) + spliced(
                encode_utf8(line@),
                rest,
                skip as int,
                encode_utf8(mark@),
                from as int,
            ));
        }
        from = start + skip;
        i += 1;
    }
    let ghost before = out@;
    proof {
        is_char_boundary_start_end_of_seq(encode_utf8(line@));
    }
    let kept = slice(line, from, len);
    out.append(kept);
    proof {
        lemma_encoding_of_joined(before, kept@);
    }
    out
}

/// `text` as the terminal is to show it when it is set off: in red.
///
/// This is `Colorize::red` of the crate colored, turned into a `String`. The
/// crate decides by the process's environment, by whether the output is a
/// terminal and by what was set through its `control` module whether it uses
/// colour at all. So the result is one of two: `text` as it is, or `text`
/// with the escape sequence for red before it and the one that resets after
/// it, and with red turned on again after each reset within `text`.
#[verifier::external_body]
fn emphasize(text: &str) -> (shown: String)
    ensures
        shown@ == text@ || encode_utf8(shown@) == in_red(encode_utf8(text@)),
{
    text.red().to_string()
}

/// `line` with `mark` put in wherever `sought` is found in `searched`, in
/// place of the `skip` bytes of `line` that follow the offset of the match.
///
/// `searched` is the line as it is compared and `sought` the query as it is
/// compared; `skip` is the length of the query as it stands.
pub fn mark_found(
    line: &str,
    searched: &str,
    sought: &str,
    skip: usize,
    mark: &str,
) -> (out: String)
    requires
        splice_fits(
            encode_utf8(line@),
            match_starts(encode_utf8(searched@), encode_utf8(sought@), 0),
            skip as int,
            0,
        ),
    ensures
        encode_utf8(out@) == spliced(
            encode_utf8(line@),
            match_starts(encode_utf8(searched@), encode_utf8(sought@), 0),
            skip as int,
            encode_utf8(mark@),
            0,
        ),
{
    let starts = find_all(searched, sought);
    splice(line, &starts, skip, mark)
}

/// `line` with every match of `query` set off.
///
/// With regard to case, each match of the query in the line is marked.
/// Without, the matches are those of the query in lower case in the line in
/// lower case; at the offset of each, the query in lower case is put in,
/// marked, and as many bytes of the line are left out as the query has as it
/// stands.
pub fn highlight_matches(line: &str, query: &str, ignore_case: &bool) -> (out: String)
    requires
        *ignore_case ==> can_highlight(line@, query@, true),
    ensures
        is_highlight(out@, line@, query@, *ignore_case),
{
    let skip = query.as_bytes().len();
    if *ignore_case {
        let line_lower = line.to_lowercase();
        let query_lower = query.to_lowercase();
        let mark = emphasize(query_lower.as_str());
        mark_found(line, line_lower.as_str(), query_lower.as_str(), skip, mark.as_str())
    } else {
        let mark = emphasize(query);
        proof {
            lemma_can_highlight_with_case(line@, query@);
        }
        mark_found(line, line, query, skip, mark.as_str())
    }
}

/// `line` with every match of `query` set off, where the line can be cut as
/// that asks; `None` where it cannot.
pub fn try_highlight_matches(line: &str, query: &str, ignore_case: &bool) -> (out: Option<String>)
    ensures
        out is Some <==> can_highlight(line@, query@, *ignore_case),
        out matches Some(shown) ==> is_highlight(shown@, line@, query@, *ignore_case),
{
    if *ignore_case {
        let line_lower = line.to_lowercase();
        let query_lower = query.to_lowercase();
        let starts = find_all(line_lower.as_str(), query_lower.as_str());
        if !marks_fit(line, &starts, query.as_bytes().len()) {
            return None;
        }
    } else {
        proof {
            lemma_can_highlight_with_case(line@, query@);
        }
    }
    Some(highlight_matches(line, query, ignore_case))
}

} // verus!
