//! Multi-word anagram search over a frequency-ranked dictionary.
//!
//! A query reduces a seed phrase to a bag of letters, keeps the dictionary words that fit
//! in it, groups them into anagram classes under a per-query prime fingerprint, stores the
//! class counters in a trie, and searches that trie for every decomposition of the bag;
//! the decompositions are then expanded into spellings and ranked by mean score.
pub mod alphabet;
pub mod classes;
pub mod counter_trie;
pub mod dictionary;
pub mod expand;
pub mod laws;
pub mod letter_trie;
pub mod letters;
pub mod normalize;
pub mod ordering;
pub mod query;
pub mod search;
pub mod solver;

pub use classes::SolveError;
pub use dictionary::{parse_dictionary, Entry, ParseError};
pub use letter_trie::{generate, trie_solve};
pub use query::{solve, ResultsStruct};
