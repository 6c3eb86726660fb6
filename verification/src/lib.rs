//! A verified core for a line-oriented concatenation filter.
//!
//! The library rewrites byte segments (one input line each, trailing newline
//! included) while applying a configurable set of visibility transformations:
//! line numbering, end-of-line marking, tab visualization, non-printable
//! escaping and blank-line squeezing. Reading sources and writing to a real
//! sink stay with the caller; the library turns segments into output bytes.

pub mod config;
pub mod writer;
