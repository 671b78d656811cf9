//! A trie over sequences of alphabet symbols, and the alphabet it is built on.

pub mod grammar;
pub mod trie;
