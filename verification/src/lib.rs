//! An ordered key-value container kept as a height-balanced binary search
//! tree, with its behaviour stated in contracts over a mathematical model
//! of the tree.

pub mod avltree;
pub mod balance;
pub mod height;
pub mod iterator;
pub mod laws;
pub mod levels;
pub mod node;
pub mod order;
pub mod range;
pub mod render;
pub mod tree;
pub mod update;
pub mod walks;

pub use avltree::AVLTree;
pub use iterator::{RangePairIter, TraverseIter};
pub use node::{Link, Node};
