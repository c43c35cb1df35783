//! A red-black tree over `u64` keys: ordered insertion with verified
//! rebalancing, and in-order traversal.
//!
//! The tree structure itself (`model::Tree`) is public, so that the four
//! red-black invariants and the binary-search-tree order can be stated as
//! open specification functions over it; `rbtree::RedBlackTree` wraps it
//! behind the insertion and traversal operations.

pub mod model;
pub mod rbtree;
