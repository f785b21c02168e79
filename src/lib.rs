//! Small verified data structures: a least-frequently-used cache and its
//! companions.
pub mod lfu;
pub mod lru;
pub mod min_stack;
pub mod twitter;
pub mod tree;
pub mod median;
pub mod peeking;
pub mod trie;
