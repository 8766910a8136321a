//! A line-deduplication filter in the manner of the classic `uniq` utility.
//!
//! The library reads a whole input as bytes, splits it into trimmed,
//! non-empty lines, counts how often each comparison key occurs, and then
//! renders one of four outputs: every distinct line, every line with its
//! occurrence count, only the repeated lines, or only the unique lines.
//! Deduplication is global (a frequency table over the whole input), not
//! adjacent-only; the table keeps the first-seen order of keys.  Lines are
//! compared as bytes, and trimming and case folding work on the ASCII
//! subset (see the `lines` module).

pub mod config;
pub mod constant;
pub mod laws;
pub mod lines;
pub mod output;
pub mod table;
