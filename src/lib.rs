//! An X-fast trie: an ordered dictionary over bounded `usize` keys whose
//! predecessor and successor queries cost a number of hash probes
//! logarithmic in the key width, with a verified model of every node.
pub mod deque;
pub mod model;
pub mod prefix;
pub mod trie;

pub use deque::{Deque, Iter, IterMut};
pub use trie::{TrieNode, Xfast, XfastIter};
