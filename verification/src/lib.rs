//! Arena-backed index structures.
//!
//! A node arena hands out monotonically increasing identities and stores one
//! node under each of them. Two trees are built on it: a point quadtree over a
//! two-dimensional integer grid and a trie over sequences of alphabet symbols.
//! Parents refer to their children by identity only, never by reference.

pub mod arena;
pub mod spatial;
pub mod trie;
