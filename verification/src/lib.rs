//! A line-oriented substring search library.
//!
//! Given a search string and the bytes of a text file, the library reports
//! every line that contains the search string, together with the byte
//! offsets of all non-overlapping occurrences within that line.  An optional
//! case-insensitive mode folds both texts to ASCII lowercase for matching
//! while offsets keep referring to the original line.

pub mod config;
pub mod index_map;
pub mod lines;
pub mod render;
pub mod results;
pub mod scanner;

pub use config::GrepConfig;
pub use results::SearchResults;
pub use scanner::find_all_occurrences;
