//! Multi-pattern byte search with an Aho-Corasick automaton whose transitions
//! are precomputed for every state and every byte (a full DFA).
//!
//! - `model`: the search described on strings, with the lemmas about it;
//! - `trie`, `links`: the construction of the automaton;
//! - `matcher`: the automaton and its searches;
//! - `iter`, `iter_ol`: the non-overlapping and the overlapping search;
//! - `ring_buffer`: the buffer of matches that end at the same byte;
//! - `laws`: what holds of every search.

pub mod iter;
pub mod iter_ol;
pub mod laws;
pub mod links;
pub mod matcher;
pub mod matches;
pub mod model;
pub mod ring_buffer;
pub mod trie;

pub use matcher::FastPatternMatcher;
pub use matches::Match;
