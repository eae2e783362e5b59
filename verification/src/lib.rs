//! A small line-search library: given a literal pattern and a block of text,
//! it returns the lines of the text that contain the pattern, either with
//! exact-case matching or case-insensitively. A configuration type gathers
//! the pattern, the file name and the matching mode from plain argument and
//! environment values handed in by the caller.

pub mod config;
pub mod search;

pub use config::Config;
pub use search::contains_substr;
pub use search::run_search;
pub use search::search;
pub use search::search_case_insensitive;
pub use search::split_lines;
