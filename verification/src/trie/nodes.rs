//! The five node representations of one trie level and their shared model.

pub mod node;
pub mod node0;
pub mod node16;
pub mod node256;
pub mod node4;
pub mod node48;
