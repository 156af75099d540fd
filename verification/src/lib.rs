//! Core of a search tool for compressed archives: given the entries of a
//! gzip-tar, bzip2-tar or zip container, decide which entries are worth
//! scanning, extract their text tolerantly, and find and highlight every
//! line that contains a literal target substring.
//!
//! The surrounding binary owns all I/O: it enumerates container entries and
//! prints the match records and diagnostics that these functions return.

pub mod classify;
pub mod extract;
pub mod lines;
pub mod pattern;
pub mod search;
pub mod text;
