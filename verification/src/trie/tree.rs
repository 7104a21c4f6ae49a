//! The top-level index: case folding, match-mode dispatch, and the single
//! root slot. A tree abstracts to the set of folded keys added so far;
//! `add` and `contains` are specified against that set alone.

use vstd::prelude::*;
use vstd::string::StringSliceAdditionalSpecFns;
use crate::trie::enums::{Case, Match};
use crate::trie::nodes::node::{
    has_path, has_term, is_prefix_of, lemma_node0_model, wf_node, ArtNode, NodeSlot,
};
use crate::trie::nodes::node0::Node0;

verus! {

broadcast use vstd::std_specs::vec::group_vec_axioms;

/// ASCII lower-casing of one byte; other bytes pass through unchanged.
pub open spec fn lower_byte(b: u8) -> u8 {
    if 65 <= b <= 90 {
        (b + 32) as u8
    } else {
        b
    }
}

/// The byte sequence actually indexed for raw bytes `s` under policy `c`.
pub open spec fn fold_case(c: Case, s: Seq<u8>) -> Seq<u8> {
    match c {
        Case::Sensitive => s,
        Case::Insensitive => s.map_values(|b: u8| lower_byte(b)),
    }
}

/// `p` occurs contiguously inside `s`.
pub open spec fn is_substring_of(p: Seq<u8>, s: Seq<u8>) -> bool {
    exists|j: int| 0 <= j <= s.len() - p.len() && p == #[trigger] s.subrange(j, j + p.len())
}

/// The key set of a tree after one insertion of the raw bytes `raw`: the
/// folded bytes join the set, except that the empty key is never indexed.
pub open spec fn keys_after_add(keys: Set<Seq<u8>>, c: Case, raw: Seq<u8>) -> Set<Seq<u8>> {
    let q = fold_case(c, raw);
    if q.len() == 0 {
        keys
    } else {
        keys.insert(q)
    }
}

/// Whether a query with raw bytes `raw` matches the key set: never for the
/// empty query; else per mode, by equality, by prefix, or by substring.
pub open spec fn spec_lookup(m: Match, c: Case, keys: Set<Seq<u8>>, raw: Seq<u8>) -> bool {
    let q = fold_case(c, raw);
    q.len() > 0 && match m {
        Match::Exact => keys.contains(q),
        Match::Prefix => exists|k: Seq<u8>| #[trigger] keys.contains(k) && is_prefix_of(q, k),
        Match::PrefixPostfix => exists|k: Seq<u8>|
            #[trigger] keys.contains(k) && is_substring_of(q, k),
    }
}

/// The byte-keyed index: a match mode and case policy fixed at construction,
/// and one root slot, absent until the first key is inserted.
pub struct Tree {
    matching: Match,
    case: Case,
    root: NodeSlot,
    keys: Ghost<Set<Seq<u8>>>,
}

impl Tree {
    /// The match mode the tree was built with.
    pub closed spec fn mode(self) -> Match {
        self.matching
    }

    /// The case policy the tree was built with.
    pub closed spec fn policy(self) -> Case {
        self.case
    }

    /// The folded keys inserted so far.
    pub closed spec fn key_set(self) -> Set<Seq<u8>> {
        self.keys@
    }

    /// The tree's structure agrees with its key set: terminal paths are
    /// exactly the keys, and walkable paths are exactly the prefixes of keys
    /// (under the substring mode, of keys' suffixes, since every suffix is
    /// inserted).
    pub closed spec fn wf(self) -> bool {
        &&& (forall|k: Seq<u8>| #[trigger] self.keys@.contains(k) ==> k.len() > 0)
        &&& match self.root {
            Option::None => self.keys@ == Set::<Seq<u8>>::empty(),
            Option::Some(b) => {
                &&& wf_node(*b)
                &&& match self.matching {
                    Match::Exact | Match::Prefix => {
                        &&& (forall|s: Seq<u8>|
                            #[trigger] has_term(*b, s) == self.keys@.contains(s))
                        &&& (forall|s: Seq<u8>|
                            s.len() > 0 ==> (#[trigger] has_path(*b, s) == exists|k: Seq<u8>|
                                #[trigger] self.keys@.contains(k) && is_prefix_of(s, k)))
                    },
                    Match::PrefixPostfix => {
                        forall|s: Seq<u8>|
                            s.len() > 0 ==> (#[trigger] has_path(*b, s) == exists|k: Seq<u8>|
                                #[trigger] self.keys@.contains(k) && is_substring_of(s, k))
                    },
                }
            },
        }
    }

    /// An empty index with the given match mode and case policy.
    pub fn new(matching: Match, case: Case) -> (t: Tree)
        ensures
            t.wf(),
            t.mode() == matching,
            t.policy() == case,
            t.key_set() == Set::<Seq<u8>>::empty(),
    {
        Tree { matching, case, root: Option::None, keys: Ghost(Set::empty()) }
    }

    /// Inserts a value: its bytes are folded per the case policy and, unless
    /// empty, join the key set. Under `Exact` and `Prefix` the folded bytes
    /// are inserted once; under `PrefixPostfix` every suffix is inserted, so
    /// substrings become findable. Everything already indexed stays indexed.
    #[verifier::rlimit(50)]
    pub fn add(&mut self, value: &str)
        requires
            old(self).wf(),
        ensures
            final(self).wf(),
            final(self).mode() == old(self).mode(),
            final(self).policy() == old(self).policy(),
            final(self).key_set() == keys_after_add(
                old(self).key_set(),
                old(self).policy(),
                value.spec_bytes(),
            ),
    {
        let q = fold_value(&self.case, value);
        if q.len() == 0 {
            return ;
        }
        let ghost okeys = self.keys@;
        let ghost qs = q@;
        let old_root = self.root.take();
        let base: ArtNode = match old_root {
            Option::Some(bx) => *bx,
            Option::None => ArtNode::N0(Node0::new()),
        };
        let ghost b0 = base;
        proof {
            if old_root is None {
                lemma_node0_model(Node0 { terminal: false });
            }
        }
        match &self.matching {
            Match::Exact | Match::Prefix => {
                let new_root = base.add(q.as_slice(), 0);
                proof {
                    assert(qs.skip(0) =~= qs);
                }
                self.root = Option::Some(Box::new(new_root));
                proof {
                    self.keys@ = okeys.insert(qs);
                }
                proof {
                    let nr = new_root;
                    assert forall|s: Seq<u8>| #[trigger] has_term(nr, s) == self.keys@.contains(
                        s,
                    ) by {
                        if old_root is None {
                            assert(has_term(b0, s) == (s.len() == 0 && false));
                        }
                    }
                    assert forall|s: Seq<u8>| s.len() > 0 implies (#[trigger] has_path(nr, s)
                        == exists|k: Seq<u8>| #[trigger] self.keys@.contains(k) && is_prefix_of(
                        s,
                        k,
                    )) by {
                        if has_path(nr, s) {
                            if has_path(b0, s) {
                                if old_root is Some {
                                    let k0 = choose|k: Seq<u8>|
                                        #[trigger] okeys.contains(k) && is_prefix_of(s, k);
                                    assert(self.keys@.contains(k0) && is_prefix_of(s, k0));
                                } else {
                                    assert(false);
                                }
                            } else {
                                assert(self.keys@.contains(qs) && is_prefix_of(s, qs));
                            }
                        } else {
                            if exists|k: Seq<u8>| #[trigger] self.keys@.contains(k) && is_prefix_of(
                                s,
                                k,
                            ) {
                                let k0 = choose|k: Seq<u8>|
                                    #[trigger] self.keys@.contains(k) && is_prefix_of(s, k);
                                if k0 =~= qs {
                                    assert(is_prefix_of(s, qs));
                                    assert(false);
                                } else {
                                    assert(okeys.contains(k0));
                                    if old_root is Some {
                                        assert(has_path(b0, s));
                                    }
                                    assert(false);
                                }
                            }
                        }
                    }
                    assert forall|k: Seq<u8>| #[trigger] self.keys@.contains(k) implies k.len()
                        > 0 by {}
                    assert(self.wf());
                }
            },
            Match::PrefixPostfix => {
                let mut cur = base;
                let mut j: usize = 0;
                while j < q.len()
                    invariant
                        wf_node(cur),
                        j <= q@.len(),
                        q@ == qs,
                        forall|s: Seq<u8>|
                            #[trigger] has_path(cur, s) == (has_path(b0, s) || exists|j2: int|
                                0 <= j2 < j && is_prefix_of(s, #[trigger] qs.skip(j2))),
                    decreases q@.len() - j,
                {
                    let ghost prev = cur;
                    cur = cur.add(q.as_slice(), j);
                    proof {
                        assert forall|s: Seq<u8>|
                            #[trigger] has_path(cur, s) == (has_path(b0, s) || exists|j2: int|
                                0 <= j2 < j + 1 && is_prefix_of(s, #[trigger] qs.skip(j2))) by {
                            if has_path(cur, s) {
                                if has_path(prev, s) {
                                    if !has_path(b0, s) {
                                        let j0 = choose|j2: int|
                                            0 <= j2 < j && is_prefix_of(s, #[trigger] qs.skip(j2));
                                        assert(0 <= j0 < j + 1 && is_prefix_of(s, qs.skip(j0)));
                                    }
                                } else {
                                    assert(is_prefix_of(s, qs.skip(j as int)));
                                    assert(0 <= j < j + 1 && is_prefix_of(s, qs.skip(j as int)));
                                }
                            } else {
                                if exists|j2: int|
                                    0 <= j2 < j + 1 && is_prefix_of(s, #[trigger] qs.skip(j2)) {
                                    let j0 = choose|j2: int|
                                        0 <= j2 < j + 1 && is_prefix_of(s, #[trigger] qs.skip(j2));
                                    if j0 < j {
                                        assert(has_path(prev, s));
                                    }
                                    assert(false);
                                }
                            }
                        }
                    }
                    j = j + 1;
                }
                self.root = Option::Some(Box::new(cur));
                proof {
                    self.keys@ = okeys.insert(qs);
                }
                proof {
                    let nr = cur;
                    assert forall|s: Seq<u8>| s.len() > 0 implies (#[trigger] has_path(nr, s)
                        == exists|k: Seq<u8>| #[trigger] self.keys@.contains(k) && is_substring_of(
                        s,
                        k,
                    )) by {
                        if has_path(nr, s) {
                            if has_path(b0, s) {
                                if old_root is Some {
                                    let k0 = choose|k: Seq<u8>|
                                        #[trigger] okeys.contains(k) && is_substring_of(s, k);
                                    assert(self.keys@.contains(k0) && is_substring_of(s, k0));
                                } else {
                                    assert(false);
                                }
                            } else {
                                let j0 = choose|j2: int|
                                    0 <= j2 < qs.len() && is_prefix_of(s, #[trigger] qs.skip(j2));
                                lemma_prefix_skip(s, qs, j0);
                                assert(is_substring_of(s, qs));
                                assert(self.keys@.contains(qs) && is_substring_of(s, qs));
                            }
                        } else {
                            if exists|k: Seq<u8>| #[trigger] self.keys@.contains(k)
                                && is_substring_of(s, k) {
                                let k0 = choose|k: Seq<u8>|
                                    #[trigger] self.keys@.contains(k) && is_substring_of(s, k);
                                if k0 =~= qs {
                                    let j0 = choose|j2: int|
                                        0 <= j2 <= qs.len() - s.len() && s == #[trigger]
                                        qs.subrange(j2, j2 + s.len());
                                    lemma_prefix_skip(s, qs, j0);
                                    assert(is_prefix_of(s, qs.skip(j0)));
                                    assert(false);
                                } else {
                                    assert(okeys.contains(k0));
                                    if old_root is Some {
                                        assert(has_path(b0, s));
                                    }
                                    assert(false);
                                }
                            }
                        }
                    }
                    assert forall|k: Seq<u8>| #[trigger] self.keys@.contains(k) implies k.len()
                        > 0 by {}
                    assert(self.wf());
                }
            },
        }
    }

    /// Whether a value matches: its bytes are folded identically to `add`'s,
    /// the empty query never matches, and otherwise the folded query must
    /// equal a key (`Exact`), start one (`Prefix`), or occur inside one
    /// (`PrefixPostfix`).
    pub fn contains(&self, value: &str) -> (r: bool)
        requires
            self.wf(),
        ensures
            r == spec_lookup(self.mode(), self.policy(), self.key_set(), value.spec_bytes()),
    {
        let q = fold_value(&self.case, value);
        if q.len() == 0 {
            return false;
        }
        match &self.root {
            Option::None => {
                proof {
                    assert(!self.keys@.contains(fold_case(self.case, value.spec_bytes())));
                }
                false
            },
            Option::Some(bx) => {
                proof {
                    assert(q@.skip(0) =~= q@);
                }
                match &self.matching {
                    Match::Exact => bx.contains(q.as_slice(), 0),
                    Match::Prefix => bx.contains_path(q.as_slice(), 0),
                    Match::PrefixPostfix => bx.contains_path(q.as_slice(), 0),
                }
            },
        }
    }
}

/// Folds a value to the bytes actually indexed: the UTF-8 bytes as given
/// under `Sensitive`, their ASCII lower-casing under `Insensitive`.
fn fold_value(case: &Case, value: &str) -> (r: Vec<u8>)
    ensures
        r@ == fold_case(*case, value.spec_bytes()),
{
    let bytes = value.as_bytes();
    match case {
        Case::Sensitive => vstd::slice::slice_to_vec(bytes),
        Case::Insensitive => {
            let mut out: Vec<u8> = Vec::new();
            let mut i: usize = 0;
            while i < bytes.len()
                invariant
                    i <= bytes@.len(),
                    out@ == bytes@.take(i as int).map_values(|b: u8| lower_byte(b)),
                decreases bytes@.len() - i,
            {
                let b = bytes[i];
                let folded: u8 = if b >= 65 && b <= 90 {
                    b + 32
                } else {
                    b
                };
                out.push(folded);
                proof {
                    assert(bytes@.take(i + 1).map_values(|b2: u8| lower_byte(b2)) =~= bytes@.take(
                        i as int,
                    ).map_values(|b2: u8| lower_byte(b2)).push(lower_byte(bytes@[i as int])));
                }
                i = i + 1;
            }
            proof {
                assert(bytes@.take(bytes@.len() as int) =~= bytes@);
            }
            out
        },
    }
}

/// A sequence is a prefix of `q`'s suffix at `j` exactly when it occurs in
/// `q` at position `j`.
proof fn lemma_prefix_skip(s: Seq<u8>, q: Seq<u8>, j: int)
    requires
        0 <= j <= q.len(),
    ensures
        is_prefix_of(s, q.skip(j)) <==> (j + s.len() <= q.len() && s == q.subrange(
            j,
            j + s.len(),
        )),
{
    if s.len() <= q.len() - j {
        assert(q.skip(j).subrange(0, s.len() as int) =~= q.subrange(j, j + s.len()));
    }
}

// ------------------------------------------------------------------
// Laws relating several operations.
// ------------------------------------------------------------------

/// Insertions lose nothing: a query that matched before an insertion — one
/// that may promote any number of nodes — still matches after it.
pub proof fn lemma_add_preserves_matches(
    m: Match,
    c: Case,
    keys: Set<Seq<u8>>,
    added: Seq<u8>,
    q: Seq<u8>,
)
    requires
        spec_lookup(m, c, keys, q),
    ensures
        spec_lookup(m, c, keys_after_add(keys, c, added), q),
{
    let keys2 = keys_after_add(keys, c, added);
    let fq = fold_case(c, q);
    match m {
        Match::Exact => {
            assert(keys2.contains(fq));
        },
        Match::Prefix => {
            let k0 = choose|k: Seq<u8>| #[trigger] keys.contains(k) && is_prefix_of(fq, k);
            assert(keys2.contains(k0) && is_prefix_of(fq, k0));
        },
        Match::PrefixPostfix => {
            let k0 = choose|k: Seq<u8>| #[trigger] keys.contains(k) && is_substring_of(fq, k);
            assert(keys2.contains(k0) && is_substring_of(fq, k0));
        },
    }
}

/// A value just added is found, under every mode: its folded bytes equal a
/// key, start one, and occur inside one.
pub proof fn lemma_added_value_found(
    m: Match,
    c: Case,
    keys: Set<Seq<u8>>,
    added: Seq<u8>,
)
    requires
        fold_case(c, added).len() > 0,
    ensures
        spec_lookup(m, c, keys_after_add(keys, c, added), added),
{
    let q = fold_case(c, added);
    let keys2 = keys_after_add(keys, c, added);
    assert(keys2.contains(q));
    assert(q =~= q.subrange(0, q.len() as int));
    match m {
        Match::Exact => {},
        Match::Prefix => {
            assert(keys2.contains(q) && is_prefix_of(q, q));
        },
        Match::PrefixPostfix => {
            assert(q == q.subrange(0, 0 + q.len() as int));
            assert(is_substring_of(q, q));
            assert(keys2.contains(q) && is_substring_of(q, q));
        },
    }
}

/// Adding a key twice yields the same matches as adding it once.
pub proof fn lemma_add_idempotent(
    m: Match,
    c: Case,
    keys: Set<Seq<u8>>,
    added: Seq<u8>,
    q: Seq<u8>,
)
    ensures
        spec_lookup(m, c, keys_after_add(keys_after_add(keys, c, added), c, added), q)
            == spec_lookup(m, c, keys_after_add(keys, c, added), q),
{
    assert(keys_after_add(keys_after_add(keys, c, added), c, added) =~= keys_after_add(
        keys,
        c,
        added,
    ));
}

/// Under the insensitive policy, queries that fold to the same bytes match
/// the same keys: case never separates them.
pub proof fn lemma_insensitive_case_symmetry(
    m: Match,
    keys: Set<Seq<u8>>,
    q1: Seq<u8>,
    q2: Seq<u8>,
)
    requires
        fold_case(Case::Insensitive, q1) == fold_case(Case::Insensitive, q2),
    ensures
        spec_lookup(m, Case::Insensitive, keys, q1) == spec_lookup(m, Case::Insensitive, keys, q2),
{
}

} // verus!
