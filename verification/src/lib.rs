//! A line filter: which lines of a text hold a query, and how a matching
//! line is shown with its matches set off in colour.
//!
//! `search` and `search_case_insensitive` pick the lines, `highlight_matches`
//! marks the matches in one of them, and `run` does both for a whole text.
//! `Config` holds what one invocation asks for. Reading the command line's
//! environment and the file, and printing, are left to the caller.

pub mod case;
pub mod config;
pub mod encoding;
pub mod escapes;
pub mod highlight;
pub mod in_bytes;
pub mod run;
pub mod search;
pub mod text;

pub use config::Config;
pub use highlight::{highlight_matches, try_highlight_matches};
pub use run::run;
pub use search::{search, search_case_insensitive};
