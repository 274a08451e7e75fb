//! A small line-oriented pattern search library: given a compiled pattern
//! and a sequence of text lines, it finds the lines with at least one match
//! and partitions each into alternating matched and unmatched spans, for a
//! renderer to print with the matches emphasised.

pub mod acquire;
pub mod matching;
pub mod spans;
