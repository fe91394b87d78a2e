//! One whole search: from the settings and the text of the file to the lines
//! that are shown.

use crate::config::Config;
use crate::highlight::{can_highlight, is_highlight, try_highlight_matches};
use crate::search::{holding, search, search_case_insensitive};
use crate::text::{lines_of, texts_of_each};
use vstd::prelude::*;

verus! {

/// The lines of `content` that are to be shown for `config`: those that hold
/// its query, with or without regard to case as it says.
pub open spec fn selected(config: Config, content: Seq<char>) -> Seq<Seq<char>> {
    holding(lines_of(content), config.query@, config.ignore_case)
}

/// What is shown for `config` when the file holds `content`: each line that
/// holds the query, highlighted, in the order of the file. `None` where one
/// of these lines cannot be highlighted; then nothing is to be shown.
pub fn run(config: &Config, content: &str) -> (shown: Option<Vec<String>>)
    ensures
        shown is Some <==> forall|i: int|
            0 <= i < selected(*config, content@).len() ==> can_highlight(
                #[trigger] selected(*config, content@)[i],
                config.query@,
                config.ignore_case,
            ),
        shown matches Some(out) ==> {
            &&& out.len() == selected(*config, content@).len()
            &&& forall|i: int|
                0 <= i < out.len() ==> is_highlight(
                    #[trigger] out[i]@,
                    selected(*config, content@)[i],
                    config.query@,
                    config.ignore_case,
                )
        },
{
    let query = config.query.as_str();
    let found = if config.ignore_case {
        search_case_insensitive(query, content)
    } else {
        search(query, content)
    };
    let mut out: Vec<String> = Vec::new();
    let mut i: usize = 0;
    while i < found.len()
        invariant
            i <= found.len(),
            out.len() == i,
            query@ == config.query@,
            texts_of_each(found@) == selected(*config, content@),
            forall|j: int|
                0 <= j < i ==> can_highlight(
                    #[trigger] selected(*config, content@)[j],
                    config.query@,
                    config.ignore_case,
                ),
            forall|j: int|
                0 <= j < i ==> is_highlight(
                    #[trigger] out[j]@,
                    selected(*config, content@)[j],
                    config.query@,
                    config.ignore_case,
                ),
        decreases found.len() - i,
    {
        let line = found[i];
        assert(texts_of_each(found@)[i as int] == line@);
        match try_highlight_matches(line, query, &config.ignore_case) {
            Some(text) => {
                out.push(text);
            },
            None => {
                return None;
            },
        }
        i += 1;
    }
    assert(texts_of_each(found@).len() == found.len());
    Some(out)
}

} // verus!
