//! The adaptive radix tree: enums, helpers, node variants, and the tree.

pub mod enums;
pub mod helpers;
pub mod nodes;
pub mod tree;
