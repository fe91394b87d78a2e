//! Letter case: what a text is in lower case.

use vstd::prelude::*;

verus! {

/// `text` in lower case, as `str::to_lowercase` gives it: by the rules of
/// Unicode, for every script, not for the letters of ASCII alone. The result
/// may take more bytes than `text`, or fewer.
pub uninterp spec fn lowercase(text: Seq<char>) -> Seq<char>;

/// `str::to_lowercase` of the standard library. What it returns depends on
/// the characters of `text` and on nothing else, and is called `lowercase`
/// of them here; nothing more is claimed of it.
pub assume_specification[ str::to_lowercase ](text: &str) -> (lower: String)
    ensures
        lower@ == lowercase(text@),
;

/// `text` as it is compared: in lower case where case is disregarded, as it
/// stands where it is not.
pub open spec fn folded(text: Seq<char>, ignore_case: bool) -> Seq<char> {
    if ignore_case {
        lowercase(text)
    } else {
        text
    }
}

} // verus!
