//! Error-tolerant autocompletion: Levenshtein (prefix) edit distances and an
//! index based on the matching-based method (META) over a trie of stored strings.
pub mod levenshtein;
pub mod measured;
pub mod order;
pub mod meta;
pub mod cache;
pub mod complete;
pub mod sample;

pub use measured::MeasuredPrefix;
