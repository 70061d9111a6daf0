//! A bitwise trie over a bounded universe of integer keys (an x-fast trie).
//!
//! Every level of the trie is indexed by the key prefixes of that length, the
//! leaves are threaded into a sorted doubly linked chain, and internal nodes that
//! miss a child on one side keep a shortcut to the extremal leaf below them.
//! Lookups, inclusive predecessor and successor queries, insertion and deletion
//! are verified against a map from keys to values.
pub mod iter;
pub mod laws;
pub mod node;
pub mod order;
pub mod prefix;
pub mod trie;

pub use iter::{XfastIter, XfastIterMut};
pub use node::{Link, TrieNode};
pub use trie::Xfast;
