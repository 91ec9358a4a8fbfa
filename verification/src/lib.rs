//! A streaming splitter: reads a buffered byte source and yields the text
//! segments that stand between occurrences of a fixed multi-byte delimiter,
//! without materializing the whole stream. The delimiter is found by a
//! one-pass, non-backtracking automaton whose state survives chunk
//! boundaries, so a delimiter split across two refills is still detected.

pub mod automaton;
pub mod laws;
pub mod reader;
pub mod splitter;
