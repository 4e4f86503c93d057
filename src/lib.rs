//! An ordered key-value store kept in an unbalanced binary search tree.
//!
//! Keys are ordered through [`TreeKey`]; the tree keeps greater keys in left
//! subtrees and lesser keys in right subtrees.
pub mod key;
pub mod laws;
pub mod tree;

pub use key::TreeKey;
pub use tree::{BinaryTree, Node, NotFoundError};
