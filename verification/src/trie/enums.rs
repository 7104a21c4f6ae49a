use vstd::prelude::*;

verus! {

/// How a query is matched against the inserted keys.
pub enum Match {
    /// A query matches only if it equals an inserted key.
    Exact,
    /// A query matches if it is a prefix of an inserted key.
    Prefix,
    /// A query matches if it is a contiguous substring of an inserted key.
    PrefixPostfix,
}

/// Whether keys and queries are case folded before indexing.
pub enum Case {
    /// Bytes are indexed as given.
    Sensitive,
    /// ASCII upper-case bytes are lowered before indexing and lookup.
    Insensitive,
}

} // verus!
