//! A byte-keyed adaptive radix tree (ART) string index.
//!
//! The main entry point is [`trie::tree::Tree`]: a mutable set of byte
//! sequences supporting insertion and membership queries under three
//! matching semantics (exact, prefix, substring) and two case policies.
//! Internal nodes start minimal and promote through four capacity classes
//! (4, 16, 48, 256 children) as branching increases.
//!
//! The crate also carries the earlier, simpler iterations of the index
//! (`trie1` through `trie4`, fixed-width trie nodes) and two small
//! singly-linked lists (`list1`, `list2`).

pub mod list1;
pub mod list2;
pub mod trie;
pub mod trie1;
pub mod trie2;
pub mod trie3;
pub mod trie4;
