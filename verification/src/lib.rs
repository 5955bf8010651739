//! A prefix tree (trie): an in-memory associative container keyed by
//! sequences of elements rather than by atomic keys.
//!
//! The tree supports exact-key lookup, insertion and removal, as well as
//! "shortest-prefix" lookup and removal, where a query matches the first
//! stored value encountered while walking down the tree. Removal prunes
//! every subtree that becomes structurally empty, so the tree never
//! accumulates dead branches.

pub mod key;
pub mod laws;
pub mod tree;

pub use key::TrieKey;
pub use tree::PrefixTree;
