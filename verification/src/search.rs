//! Which lines of a text hold a query.

use crate::case::{folded, lowercase};
use crate::text::{contains, lines, lines_of, occurs_in, texts_of_each};
use vstd::prelude::*;

verus! {

/// Whether `query` stands in `line`. Where `ignore_case` is set, both are
/// taken in lower case.
pub open spec fn holds(line: Seq<char>, query: Seq<char>, ignore_case: bool) -> bool {
    occurs_in(folded(line, ignore_case), folded(query, ignore_case))
}

/// The test that `holding` puts each line to.
pub open spec fn holds_query(query: Seq<char>, ignore_case: bool) -> spec_fn(Seq<char>) -> bool {
    |line: Seq<char>| holds(line, query, ignore_case)
}

/// Those of `lines` in which `query` stands, in their order, each as often as
/// it is among `lines`.
pub open spec fn holding(lines: Seq<Seq<char>>, query: Seq<char>, ignore_case: bool) -> Seq<
    Seq<char>,
> {
    lines.filter(holds_query(query, ignore_case))
}

/// What one more line adds to the lines that hold a query: itself, at the
/// end, if the query stands in it, and nothing if not.
pub proof fn lemma_holding_one_more(
    lines: Seq<Seq<char>>,
    line: Seq<char>,
    query: Seq<char>,
    ignore_case: bool,
)
    ensures
        holding(lines.push(line), query, ignore_case) == if holds(line, query, ignore_case) {
            holding(lines, query, ignore_case).push(line)
        } else {
            holding(lines, query, ignore_case)
        },
{
    lines.lemma_filter_push(line, holds_query(query, ignore_case));
}

/// Where lower case changes neither the query nor any of the lines, the
/// search that disregards case finds what the search that regards it finds.
pub proof fn lemma_searches_agree_on_lower_case(lines: Seq<Seq<char>>, query: Seq<char>)
    requires
        lowercase(query) == query,
        forall|i: int| 0 <= i < lines.len() ==> lowercase(#[trigger] lines[i]) == lines[i],
    ensures
        holding(lines, query, true) == holding(lines, query, false),
    decreases lines.len(),
{
    if lines.len() > 0 {
        let front = lines.drop_last();
        assert(lines =~= front.push(lines.last()));
        assert forall|i: int| 0 <= i < front.len() implies lowercase(#[trigger] front[i])
            == front[i] by {
            assert(front[i] == lines[i]);
        }
        lemma_searches_agree_on_lower_case(front, query);
        lemma_holding_one_more(front, lines.last(), query, true);
        lemma_holding_one_more(front, lines.last(), query, false);
    } else {
        assert(lines.filter(holds_query(query, true)) =~= lines.filter(holds_query(query, false)))
            by {
            reveal(Seq::filter);
        }
    }
}

/// Those of `all` that hold `query`, in their order.
fn keep_holding<'a>(all: Vec<&'a str>, query: &str, ignore_case: bool) -> (found: Vec<&'a str>)
    ensures
        texts_of_each(found@) == holding(texts_of_each(all@), query@, ignore_case),
{
    let lowered = if ignore_case {
        Some(query.to_lowercase())
    } else {
        None
    };
    let sought: &str = match &lowered {
        Some(lower) => lower.as_str(),
        None => query,
    };
    let mut found: Vec<&'a str> = Vec::new();
    let mut i: usize = 0;
    while i < all.len()
        invariant
            i <= all.len(),
            sought@ == folded(query@, ignore_case),
            texts_of_each(found@) == holding(
                texts_of_each(all@).take(i as int),
                query@,
                ignore_case,
            ),
        decreases all.len() - i,
    {
        let line = all[i];
        let ghost before = texts_of_each(found@);
        proof {
            let seen = texts_of_each(all@).take(i as int);
            assert(texts_of_each(all@).take(i + 1) =~= seen.push(line@));
            lemma_holding_one_more(seen, line@, query@, ignore_case);
        }
        let held = if ignore_case {
            contains(line.to_lowercase().as_str(), sought)
        } else {
            contains(line, sought)
        };
        if held {
            found.push(line);
            assert(texts_of_each(found@) =~= before.push(line@));
        }
        i += 1;
    }
    assert(texts_of_each(all@).take(i as int) =~= texts_of_each(all@));
    found
}

/// The lines of `content` in which `query` stands, letter for letter, in
/// their order. The empty query stands in every line.
pub fn search<'a>(query: &str, content: &'a str) -> (found: Vec<&'a str>)
    ensures
        texts_of_each(found@) == holding(lines_of(content@), query@, false),
{
    keep_holding(lines(content), query, false)
}

/// The lines of `content` in which `query` stands when letter case is
/// disregarded: those whose lower-case form holds the lower-case form of the
/// query.
pub fn search_case_insensitive<'a>(query: &str, content: &'a str) -> (found: Vec<&'a str>)
    ensures
        texts_of_each(found@) == holding(lines_of(content@), query@, true),
{
    keep_holding(lines(content), query, true)
}

} // verus!
