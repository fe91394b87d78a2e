//! What one invocation is asked to do.

use vstd::prelude::*;
use vstd::std_specs::iter::IteratorSpec;

verus! {

/// The settings of one search.
pub struct Config {
    /// The text to look for.
    pub query: String,
    /// The file whose lines are searched.
    pub file_path: String,
    /// Whether letter case is disregarded when matching.
    pub ignore_case: bool,
}

impl Config {
    /// What `build` answers when no query was given.
    pub open spec fn missing_query() -> Seq<char> {
        "Didn't get a query string"@
    }

    /// What `build` answers when a query was given but no file path.
    pub open spec fn missing_file_path() -> Seq<char> {
        "Didn't get a file path"@
    }

    /// Reads the settings from a command line: the program's name, the query,
    /// the file path. Anything after the file path is disregarded.
    ///
    /// `ignore_case` is handed in by the caller, who decides it once, before
    /// the settings are built.
    ///
    /// What is said of the result is said for arguments that come as an
    /// iterator should give them: one after the other, then the end, and
    /// nothing after the end.
    pub fn build<I: Iterator<Item = String>>(mut args: I, ignore_case: bool) -> (built: Result<
        Config,
        &'static str,
    >)
        ensures
            args.obeys_prophetic_iter_laws() ==> match built {
                Ok(config) => {
                    &&& args.remaining().len() >= 3
                    &&& config.query == args.remaining()[1]
                    &&& config.file_path == args.remaining()[2]
                    &&& config.ignore_case == ignore_case
                },
                Err(message) => {
                    ||| args.remaining().len() < 2 && message@ == Self::missing_query()
                    ||| args.remaining().len() == 2 && message@ == Self::missing_file_path()
                },
            },
    {
        let _ = args.next();
        let query = match args.next() {
            Some(arg) => arg,
            None => return Err("Didn't get a query string"),
        };
        let file_path = match args.next() {
            Some(arg) => arg,
            None => return Err("Didn't get a file path"),
        };
        Ok(Config { query, file_path, ignore_case })
    }
}

} // verus!
