//! A verified crossword-filling core: a trie word index with wildcard
//! pattern queries, a matcher that translates between letters and index
//! words, a rectangular cell grid with slot extraction, and a backtracking
//! filler that commits dictionary words into the grid and restores it on
//! failure.

pub mod crossword;
pub mod matcher;
pub mod rng;
pub mod trie;
