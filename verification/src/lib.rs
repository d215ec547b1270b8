//! A compressed prefix tree over path-like strings, with a trailing
//! wildcard segment that matches any non-empty suffix.
//!
//! - [`trie_tree`] holds the tree, [`trie_tree::TrieTree`], with its
//!   insertion and its lookup.
//! - [`model`] says what a tree is as a mathematical value, what an
//!   insertion makes of it and which keys it matches and holds.
//! - [`segment`] is about the text of one node: the longest common prefix
//!   and the wildcard marker.
//! - [`laws`] proves what holds of every tree.

pub mod segment;
pub mod model;
pub mod trie_tree;
pub mod laws;
