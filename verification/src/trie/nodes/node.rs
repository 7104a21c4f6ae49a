//! The shared model of the five node representations: the child map each
//! variant encodes, the byte paths and terminal keys a node denotes, and the
//! well-formedness every operation preserves.

use vstd::prelude::*;
use crate::trie::nodes::node0::Node0;
use crate::trie::nodes::node16::Node16;
use crate::trie::nodes::node256::Node256;
use crate::trie::nodes::node4::Node4;
use crate::trie::nodes::node48::Node48;
use std::cmp::Ordering;

verus! {

broadcast use vstd::std_specs::vec::group_vec_axioms;

/// One trie level, in whichever of the five representations it currently has.
/// A node is never mutated into a different representation: promotion builds
/// the next variant and the new value supersedes the old one in the parent.
pub enum ArtNode {
    N0(Node0),
    N4(Node4),
    N16(Node16),
    N48(Node48),
    N256(Node256),
}

/// An optional, exclusively owned handle to one child node; the only form of
/// parent-to-child reference in the structure.
pub type NodeSlot = Option<Box<ArtNode>>;

/// Where a byte's branch lives in a node, as reported by `get_index`.
pub enum NodeLocation {
    /// The byte already has a branch at the given indices.
    Exists(KeyChildIndex),
    /// The byte has no branch; there is room to insert at the given indices.
    Insert(KeyChildIndex),
    /// The byte has no branch and the node is full: it must promote.
    Upgrade,
}

/// A position in a node's key array paired with the matching position in its
/// child array.
pub struct KeyChildIndex {
    pub key: usize,
    pub child: usize,
}

/// The order of optional keys: populated keys by byte value, absent keys last.
pub open spec fn key_val(k: Option<u8>) -> int {
    match k {
        Option::Some(v) => v as int,
        Option::None => 256,
    }
}

/// Compares two optional keys; absent keys sort after every populated key.
pub fn val_cmp(a: &Option<u8>, b: &Option<u8>) -> (r: Ordering)
    ensures
        r == Ordering::Less <==> key_val(*a) < key_val(*b),
        r == Ordering::Equal <==> key_val(*a) == key_val(*b),
        r == Ordering::Greater <==> key_val(*a) > key_val(*b),
{
    if a.is_none() && b.is_none() {
        Ordering::Equal
    } else if a.is_none() && b.is_some() {
        Ordering::Greater
    } else if a.is_some() && b.is_none() {
        Ordering::Less
    } else {
        let av = a.unwrap();
        let bv = b.unwrap();
        if av < bv {
            Ordering::Less
        } else if av == bv {
            Ordering::Equal
        } else {
            Ordering::Greater
        }
    }
}

// ------------------------------------------------------------------
// The abstract model: a node denotes a terminal flag and a child map.
// ------------------------------------------------------------------

/// The node held by a slot, if any.
pub open spec fn slot_node(s: NodeSlot) -> Option<ArtNode> {
    match s {
        Option::Some(b) => Option::Some(*b),
        Option::None => Option::None,
    }
}

/// Whether some inserted key ends exactly at this node.
pub open spec fn spec_terminal(n: ArtNode) -> bool {
    match n {
        ArtNode::N0(m) => m.terminal,
        ArtNode::N4(m) => m.terminal,
        ArtNode::N16(m) => m.terminal,
        ArtNode::N48(m) => m.terminal,
        ArtNode::N256(m) => m.terminal,
    }
}

/// The number of populated branches of a node.
pub open spec fn spec_size(n: ArtNode) -> int {
    match n {
        ArtNode::N0(_) => 0,
        ArtNode::N4(m) => m.size as int,
        ArtNode::N16(m) => m.size as int,
        ArtNode::N48(m) => m.size as int,
        ArtNode::N256(m) => m.size as int,
    }
}

/// Whether the node has no room for a further branch.
pub open spec fn spec_full(n: ArtNode) -> bool {
    match n {
        ArtNode::N0(_) => true,
        ArtNode::N4(m) => m.size == 4,
        ArtNode::N16(m) => m.size == 16,
        ArtNode::N48(m) => m.size == 48,
        ArtNode::N256(m) => m.size == 256,
    }
}

/// How many promotions a node may still undergo; each promotion lowers it.
pub open spec fn promotions_left(n: ArtNode) -> int {
    match n {
        ArtNode::N0(_) => 4,
        ArtNode::N4(_) => 3,
        ArtNode::N16(_) => 2,
        ArtNode::N48(_) => 1,
        ArtNode::N256(_) => 0,
    }
}

/// The branch capacity of a node's representation class.
pub open spec fn class_capacity(n: ArtNode) -> int {
    match n {
        ArtNode::N0(_) => 0,
        ArtNode::N4(_) => 4,
        ArtNode::N16(_) => 16,
        ArtNode::N48(_) => 48,
        ArtNode::N256(_) => 256,
    }
}

/// The capacity ladder behind the promotion order: a well-formed node never
/// holds more branches than its class's capacity — 0, 4, 16, 48, 256 along
/// the chain — and reports itself full exactly at that boundary. Together
/// with `add`'s promotion clause (one step down `promotions_left`, taken
/// exactly when a full node must branch), the representations are passed
/// through in order, each left only when full.
pub proof fn lemma_capacity_ladder(n: ArtNode)
    requires
        wf_node(n),
    ensures
        0 <= spec_size(n) <= class_capacity(n),
        spec_full(n) <==> spec_size(n) == class_capacity(n),
{
}

/// The branch a byte maps to in a node backed by parallel key and child
/// arrays whose occupied positions are `0 .. size`.
pub open spec fn spec_child_keyed(
    keys: Seq<Option<u8>>,
    children: Seq<NodeSlot>,
    size: int,
    b: u8,
) -> Option<ArtNode> {
    if exists|i: int| 0 <= i < size && i < keys.len() && keys[i] == Option::Some(b) {
        let i = choose|i: int| 0 <= i < size && i < keys.len() && keys[i] == Option::Some(b);
        if 0 <= i < children.len() {
            slot_node(children[i])
        } else {
            Option::None
        }
    } else {
        Option::None
    }
}

/// The branch a byte maps to, per representation.
pub open spec fn spec_child(n: ArtNode, b: u8) -> Option<ArtNode> {
    match n {
        ArtNode::N0(_) => Option::None,
        ArtNode::N4(m) => spec_child_keyed(m.keys@, m.children@, m.size as int, b),
        ArtNode::N16(m) => spec_child_keyed(m.keys@, m.children@, m.size as int, b),
        ArtNode::N48(m) => if (b as int) < m.keys@.len() {
            match m.keys@[b as int] {
                Option::Some(ci) => if (ci as int) < m.children@.len() {
                    slot_node(m.children@[ci as int])
                } else {
                    Option::None
                },
                Option::None => Option::None,
            }
        } else {
            Option::None
        },
        ArtNode::N256(m) => if (b as int) < m.children@.len() {
            slot_node(m.children@[b as int])
        } else {
            Option::None
        },
    }
}

/// Whether the byte sequence `s` can be walked from `n`.
pub open spec fn has_path(n: ArtNode, s: Seq<u8>) -> bool
    decreases s.len(),
{
    if s.len() <= 0 {
        true
    } else {
        match spec_child(n, s[0]) {
            Option::Some(c) => has_path(c, s.skip(1)),
            Option::None => false,
        }
    }
}

/// Whether the byte sequence `s` leads from `n` to a terminal node.
pub open spec fn has_term(n: ArtNode, s: Seq<u8>) -> bool
    decreases s.len(),
{
    if s.len() <= 0 {
        spec_terminal(n)
    } else {
        match spec_child(n, s[0]) {
            Option::Some(c) => has_term(c, s.skip(1)),
            Option::None => false,
        }
    }
}

/// `p` is an initial segment of `s`.
pub open spec fn is_prefix_of(p: Seq<u8>, s: Seq<u8>) -> bool {
    p.len() <= s.len() && p == s.subrange(0, p.len() as int)
}

// ------------------------------------------------------------------
// Well-formedness.
// ------------------------------------------------------------------

/// Shape of a node backed by parallel key and child arrays: occupied
/// positions `0 .. size` hold distinct keys and present children, the rest
/// hold nothing.
pub open spec fn wf_keyed(
    keys: Seq<Option<u8>>,
    children: Seq<NodeSlot>,
    size: int,
    cap: int,
) -> bool {
    &&& keys.len() == cap
    &&& children.len() == cap
    &&& 0 <= size <= cap
    &&& (forall|i: int| 0 <= i < size ==> (#[trigger] keys[i]) is Some)
    &&& (forall|i: int| 0 <= i < size ==> (#[trigger] children[i]) is Some)
    &&& (forall|i: int| size <= i < cap ==> (#[trigger] keys[i]) is None)
    &&& (forall|i: int| size <= i < cap ==> (#[trigger] children[i]) is None)
    &&& (forall|i: int, j: int|
        0 <= i < j < size ==> key_val(#[trigger] keys[i]) != key_val(#[trigger] keys[j]))
}

/// The populated keys are in strictly ascending order.
pub open spec fn sorted_keys(keys: Seq<Option<u8>>, size: int) -> bool {
    forall|i: int, j: int|
        0 <= i < j < size ==> key_val(#[trigger] keys[i]) < key_val(#[trigger] keys[j])
}

/// Every present child is itself well formed.
pub open spec fn wf_children(children: Seq<NodeSlot>) -> bool
    decreases children,
{
    forall|i: int| 0 <= i < children.len() ==> wf_slot(#[trigger] children[i])
}

pub open spec fn wf_slot(s: NodeSlot) -> bool
    decreases s,
{
    match s {
        Option::None => true,
        Option::Some(b) => wf_node(*b),
    }
}

pub open spec fn wf4(m: Node4) -> bool
    decreases m,
{
    &&& wf_keyed(m.keys@, m.children@, m.size as int, 4)
    &&& wf_children(m.children@)
}

pub open spec fn wf16(m: Node16) -> bool
    decreases m,
{
    &&& wf_keyed(m.keys@, m.children@, m.size as int, 16)
    &&& sorted_keys(m.keys@, m.size as int)
    &&& wf_children(m.children@)
}

pub open spec fn wf48(m: Node48) -> bool
    decreases m,
{
    &&& m.keys@.len() == 256
    &&& m.children@.len() == 48
    &&& m.size <= 48
    &&& (forall|b: int|
        0 <= b < 256 && (#[trigger] m.keys@[b]) is Some ==> 0 <= key_val(m.keys@[b]) < m.size)
    &&& (forall|i: int| 0 <= i < m.size ==> (#[trigger] m.children@[i]) is Some)
    &&& (forall|i: int| m.size <= i < 48 ==> (#[trigger] m.children@[i]) is None)
    &&& (forall|b1: int, b2: int|
        0 <= b1 < b2 < 256 && (#[trigger] m.keys@[b1]) is Some && (#[trigger] m.keys@[b2]) is Some
            ==> key_val(m.keys@[b1]) != key_val(m.keys@[b2]))
    &&& count_some(m.keys@) == m.size
    &&& wf_children(m.children@)
}

pub open spec fn wf256(m: Node256) -> bool
    decreases m,
{
    &&& m.children@.len() == 256
    &&& m.size <= 256
    &&& count_some(m.children@) == m.size
    &&& wf_children(m.children@)
}

pub open spec fn wf_node(n: ArtNode) -> bool
    decreases n,
{
    match n {
        ArtNode::N0(_) => true,
        ArtNode::N4(m) => wf4(m),
        ArtNode::N16(m) => wf16(m),
        ArtNode::N48(m) => wf48(m),
        ArtNode::N256(m) => wf256(m),
    }
}

// ------------------------------------------------------------------
// Counting populated entries.
// ------------------------------------------------------------------

/// How many entries of `s` are populated.
pub open spec fn count_some<T>(s: Seq<Option<T>>) -> int
    decreases s.len(),
{
    if s.len() <= 0 {
        0
    } else {
        count_some(s.drop_last()) + (if s.last() is Some {
            1int
        } else {
            0int
        })
    }
}

pub proof fn lemma_count_some_bound<T>(s: Seq<Option<T>>)
    ensures
        0 <= count_some(s) <= s.len(),
    decreases s.len(),
{
    if s.len() > 0 {
        lemma_count_some_bound(s.drop_last());
    }
}

pub proof fn lemma_count_some_none<T>(s: Seq<Option<T>>)
    requires
        forall|i: int| 0 <= i < s.len() ==> (#[trigger] s[i]) is None,
    ensures
        count_some(s) == 0,
    decreases s.len(),
{
    if s.len() > 0 {
        lemma_count_some_none(s.drop_last());
    }
}

pub proof fn lemma_count_some_update<T>(s: Seq<Option<T>>, i: int, v: Option<T>)
    requires
        0 <= i < s.len(),
    ensures
        count_some(s.update(i, v)) == count_some(s) - (if s[i] is Some {
            1int
        } else {
            0int
        }) + (if v is Some {
            1int
        } else {
            0int
        }),
    decreases s.len(),
{
    let su = s.update(i, v);
    if i == s.len() - 1 {
        assert(su.drop_last() =~= s.drop_last());
        assert(su.last() == v);
    } else {
        assert(su.drop_last() =~= s.drop_last().update(i, v));
        assert(su.last() == s.last());
        lemma_count_some_update(s.drop_last(), i, v);
    }
}

/// Sequences whose entries are populated at the same positions have the same
/// count, whatever the entries hold.
pub proof fn lemma_count_some_agree<T, U>(s: Seq<Option<T>>, t: Seq<Option<U>>)
    requires
        s.len() == t.len(),
        forall|i: int| 0 <= i < s.len() ==> ((#[trigger] s[i]) is Some <==> (#[trigger] t[i]) is Some),
    ensures
        count_some(s) == count_some(t),
    decreases s.len(),
{
    if s.len() > 0 {
        lemma_count_some_agree(s.drop_last(), t.drop_last());
    }
}

/// A sequence with every entry populated is counted in full; so a sequence
/// whose count falls short of its length has an unpopulated entry.
pub proof fn lemma_count_some_full<T>(s: Seq<Option<T>>)
    requires
        count_some(s) == s.len(),
    ensures
        forall|i: int| 0 <= i < s.len() ==> (#[trigger] s[i]) is Some,
    decreases s.len(),
{
    if s.len() > 0 {
        lemma_count_some_bound(s.drop_last());
        lemma_count_some_full(s.drop_last());
        assert forall|i: int| 0 <= i < s.len() implies (#[trigger] s[i]) is Some by {
            if i < s.len() - 1 {
                assert(s.drop_last()[i] is Some);
            }
        }
    }
}

// ------------------------------------------------------------------
// Looking a byte up in parallel key and child arrays.
// ------------------------------------------------------------------

/// When position `i` holds the byte and populated keys are distinct, the
/// lookup lands exactly on `i`'s child slot.
pub proof fn lemma_keyed_some(
    keys: Seq<Option<u8>>,
    children: Seq<NodeSlot>,
    size: int,
    b: u8,
    i: int,
)
    requires
        0 <= i < size,
        i < keys.len(),
        i < children.len(),
        size <= keys.len(),
        keys[i] == Option::Some(b),
        forall|j1: int, j2: int|
            0 <= j1 < j2 < size ==> key_val(#[trigger] keys[j1]) != key_val(#[trigger] keys[j2]),
    ensures
        spec_child_keyed(keys, children, size, b) == slot_node(children[i]),
{
    assert(exists|j: int| 0 <= j < size && j < keys.len() && keys[j] == Option::Some(b));
    let w = choose|j: int| 0 <= j < size && j < keys.len() && keys[j] == Option::Some(b);
    if w != i {
        assert(key_val(keys[w]) == key_val(keys[i]));
        assert(false);
    }
}

/// When no populated position holds the byte, the lookup comes up empty.
pub proof fn lemma_keyed_none(keys: Seq<Option<u8>>, children: Seq<NodeSlot>, size: int, b: u8)
    requires
        forall|i: int| 0 <= i < size && i < keys.len() ==> (#[trigger] keys[i]) != Option::Some(b),
    ensures
        spec_child_keyed(keys, children, size, b) == Option::None::<ArtNode>,
{
}

// ------------------------------------------------------------------
// How the denoted key sets change under the node operations.
// ------------------------------------------------------------------

/// Equal sequences agree on their first element and on the rest.
pub proof fn lemma_seq_head_tail<T>(s: Seq<T>, t: Seq<T>)
    requires
        s.len() > 0,
        t.len() > 0,
    ensures
        (s == t) <==> (s[0] == t[0] && s.skip(1) == t.skip(1)),
{
    if s[0] == t[0] && s.skip(1) == t.skip(1) {
        assert(s.skip(1).len() == t.skip(1).len());
        assert forall|i: int| 0 <= i < s.len() implies s[i] == t[i] by {
            if i > 0 {
                assert(s.skip(1)[i - 1] == s[i]);
                assert(t.skip(1)[i - 1] == t[i]);
            }
        }
        assert(s =~= t);
    }
    if s == t {
        assert(s.skip(1) =~= t.skip(1));
    }
}

/// Being a prefix of a nonempty sequence, unfolded one element.
pub proof fn lemma_prefix_unfold(p: Seq<u8>, t: Seq<u8>)
    requires
        t.len() > 0,
    ensures
        is_prefix_of(p, t) <==> (p.len() == 0 || (p[0] == t[0] && is_prefix_of(
            p.skip(1),
            t.skip(1),
        ))),
{
    if p.len() == 0 {
        assert(p =~= t.subrange(0, 0));
    } else {
        if is_prefix_of(p, t) {
            assert(p[0] == t.subrange(0, p.len() as int)[0]);
            assert forall|i: int| 0 <= i < p.skip(1).len() implies p.skip(1)[i] == t.skip(
                1,
            ).subrange(0, p.len() - 1)[i] by {
                assert(p.skip(1)[i] == p[i + 1]);
                assert(t.skip(1).subrange(0, p.len() - 1)[i] == t[i + 1]);
                assert(p[i + 1] == t.subrange(0, p.len() as int)[i + 1]);
            }
            assert(p.skip(1) =~= t.skip(1).subrange(0, p.skip(1).len() as int));
        }
        if p.len() > 0 && p[0] == t[0] && is_prefix_of(p.skip(1), t.skip(1)) {
            assert forall|i: int| 0 <= i < p.len() implies p[i] == t.subrange(
                0,
                p.len() as int,
            )[i] by {
                if i > 0 {
                    assert(p.skip(1)[i - 1] == t.skip(1).subrange(0, p.len() - 1)[i - 1]);
                    assert(p.skip(1)[i - 1] == p[i]);
                    assert(t.skip(1).subrange(0, p.len() - 1)[i - 1] == t[i]);
                }
            }
            assert(p =~= t.subrange(0, p.len() as int));
        }
    }
}

/// The empty sequence is a prefix of everything.
pub proof fn lemma_prefix_empty(t: Seq<u8>)
    ensures
        is_prefix_of(Seq::<u8>::empty(), t),
{
    assert(Seq::<u8>::empty() =~= t.subrange(0, 0));
}

/// Nodes with the same terminal flag and the same child map denote the same
/// paths and the same terminal keys.
pub proof fn lemma_node_equiv(a: ArtNode, b: ArtNode)
    requires
        spec_terminal(a) == spec_terminal(b),
        forall|x: u8| spec_child(a, x) == spec_child(b, x),
    ensures
        forall|s: Seq<u8>| has_term(a, s) == has_term(b, s),
        forall|s: Seq<u8>| has_path(a, s) == has_path(b, s),
{
    assert forall|s: Seq<u8>| has_term(a, s) == has_term(b, s) by {
        if s.len() > 0 {
            assert(spec_child(a, s[0]) == spec_child(b, s[0]));
        }
    }
    assert forall|s: Seq<u8>| has_path(a, s) == has_path(b, s) by {
        if s.len() > 0 {
            assert(spec_child(a, s[0]) == spec_child(b, s[0]));
        }
    }
}

/// Replacing the branch of `t`'s first byte with a child whose key sets grew
/// by `t.skip(1)` grows the node's key sets by exactly `t`.
pub proof fn lemma_child_update(a: ArtNode, b: ArtNode, ca: ArtNode, cb: ArtNode, t: Seq<u8>)
    requires
        t.len() > 0,
        spec_terminal(b) == spec_terminal(a),
        spec_child(a, t[0]) == Option::Some(ca),
        spec_child(b, t[0]) == Option::Some(cb),
        forall|y: u8| y != t[0] ==> spec_child(b, y) == spec_child(a, y),
        forall|s: Seq<u8>| has_term(cb, s) == (has_term(ca, s) || s == t.skip(1)),
        forall|s: Seq<u8>| has_path(cb, s) == (has_path(ca, s) || is_prefix_of(s, t.skip(1))),
    ensures
        forall|s: Seq<u8>| has_term(b, s) == (has_term(a, s) || s == t),
        forall|s: Seq<u8>| has_path(b, s) == (has_path(a, s) || is_prefix_of(s, t)),
{
    assert forall|s: Seq<u8>| has_term(b, s) == (has_term(a, s) || s == t) by {
        if s.len() == 0 {
            assert(s != t);
        } else {
            lemma_seq_head_tail(s, t);
            if s[0] == t[0] {
                assert(has_term(b, s) == has_term(cb, s.skip(1)));
                assert(has_term(a, s) == has_term(ca, s.skip(1)));
            } else {
                assert(spec_child(b, s[0]) == spec_child(a, s[0]));
            }
        }
    }
    assert forall|s: Seq<u8>| has_path(b, s) == (has_path(a, s) || is_prefix_of(s, t)) by {
        lemma_prefix_unfold(s, t);
        if s.len() > 0 {
            if s[0] == t[0] {
                assert(has_path(b, s) == has_path(cb, s.skip(1)));
                assert(has_path(a, s) == has_path(ca, s.skip(1)));
            } else {
                assert(spec_child(b, s[0]) == spec_child(a, s[0]));
            }
        }
    }
}

/// Giving `t`'s first byte a fresh branch whose key sets are exactly those of
/// `t.skip(1)` grows the node's key sets by exactly `t`.
pub proof fn lemma_child_insert(a: ArtNode, b: ArtNode, cb: ArtNode, t: Seq<u8>)
    requires
        t.len() > 0,
        spec_terminal(b) == spec_terminal(a),
        spec_child(a, t[0]) == Option::None::<ArtNode>,
        spec_child(b, t[0]) == Option::Some(cb),
        forall|y: u8| y != t[0] ==> spec_child(b, y) == spec_child(a, y),
        forall|s: Seq<u8>| has_term(cb, s) == (s == t.skip(1)),
        forall|s: Seq<u8>| has_path(cb, s) == is_prefix_of(s, t.skip(1)),
    ensures
        forall|s: Seq<u8>| has_term(b, s) == (has_term(a, s) || s == t),
        forall|s: Seq<u8>| has_path(b, s) == (has_path(a, s) || is_prefix_of(s, t)),
{
    assert forall|s: Seq<u8>| has_term(b, s) == (has_term(a, s) || s == t) by {
        if s.len() == 0 {
            assert(s != t);
        } else {
            lemma_seq_head_tail(s, t);
            if s[0] == t[0] {
                assert(has_term(b, s) == has_term(cb, s.skip(1)));
                assert(!has_term(a, s));
            } else {
                assert(spec_child(b, s[0]) == spec_child(a, s[0]));
            }
        }
    }
    assert forall|s: Seq<u8>| has_path(b, s) == (has_path(a, s) || is_prefix_of(s, t)) by {
        lemma_prefix_unfold(s, t);
        if s.len() > 0 {
            if s[0] == t[0] {
                assert(has_path(b, s) == has_path(cb, s.skip(1)));
                assert(!has_path(a, s));
            } else {
                assert(spec_child(b, s[0]) == spec_child(a, s[0]));
            }
        }
    }
}

/// Setting the terminal flag, children untouched, grows the key sets by
/// exactly the empty key.
pub proof fn lemma_terminal_set(a: ArtNode, b: ArtNode)
    requires
        spec_terminal(b),
        forall|x: u8| spec_child(a, x) == spec_child(b, x),
    ensures
        forall|s: Seq<u8>| has_term(b, s) == (has_term(a, s) || s == Seq::<u8>::empty()),
        forall|s: Seq<u8>| has_path(b, s) == (has_path(a, s) || is_prefix_of(
            s,
            Seq::<u8>::empty(),
        )),
{
    assert forall|s: Seq<u8>| has_term(b, s) == (has_term(a, s) || s == Seq::<u8>::empty()) by {
        if s.len() == 0 {
            assert(s =~= Seq::<u8>::empty());
        } else {
            assert(spec_child(a, s[0]) == spec_child(b, s[0]));
            assert(s != Seq::<u8>::empty());
        }
    }
    assert forall|s: Seq<u8>| has_path(b, s) == (has_path(a, s) || is_prefix_of(
        s,
        Seq::<u8>::empty(),
    )) by {
        if s.len() > 0 {
            assert(spec_child(a, s[0]) == spec_child(b, s[0]));
        }
    }
}

/// A single byte can be walked exactly when it has a branch: absence in
/// the path set and absence in the child map coincide. This carries the
/// `add` family's path clauses over to its branch-count and promotion
/// clauses, whose conditions speak of the child map.
pub proof fn lemma_no_path_no_branch(n: ArtNode, b: u8)
    ensures
        spec_child(n, b) is None <==> !has_path(n, seq![b]),
{
    assert(seq![b].skip(1) =~= Seq::<u8>::empty());
    match spec_child(n, b) {
        Option::Some(c) => {
            assert(has_path(c, seq![b].skip(1)));
        },
        Option::None => {},
    }
}

/// A node with no children denotes no paths but the empty one, and at most
/// the empty terminal key.
pub proof fn lemma_node0_model(m: Node0)
    ensures
        forall|s: Seq<u8>| has_term(ArtNode::N0(m), s) == (s.len() == 0 && m.terminal),
        forall|s: Seq<u8>| has_path(ArtNode::N0(m), s) == (s.len() == 0),
{
    assert forall|s: Seq<u8>|
        has_term(ArtNode::N0(m), s) == (s.len() == 0 && m.terminal) by {
        if s.len() > 0 {
            assert(spec_child(ArtNode::N0(m), s[0]) is None);
        }
    }
    assert forall|s: Seq<u8>| has_path(ArtNode::N0(m), s) == (s.len() == 0) by {
        if s.len() > 0 {
            assert(spec_child(ArtNode::N0(m), s[0]) is None);
        }
    }
}

// ------------------------------------------------------------------
// The polymorphic node contract, dispatched over the representations.
// ------------------------------------------------------------------

/// Whether the node has branches; a `Node0` reports itself non-empty, since
/// it stands for a key end rather than an absent level.
pub open spec fn spec_empty(n: ArtNode) -> bool {
    match n {
        ArtNode::N0(_) => false,
        ArtNode::N4(m) => m.size == 0,
        ArtNode::N16(m) => m.size == 0,
        ArtNode::N48(m) => m.size == 0,
        ArtNode::N256(m) => m.size == 0,
    }
}

impl ArtNode {
    /// Whether the node can hold no further branch; a `Node0` is always
    /// full, since any branch forces its promotion.
    pub fn is_full(&self) -> (r: bool)
        ensures
            r == spec_full(*self),
    {
        match self {
            ArtNode::N0(_) => true,
            ArtNode::N4(m) => m.size == 4,
            ArtNode::N16(m) => m.size == 16,
            ArtNode::N48(m) => m.size == 48,
            ArtNode::N256(m) => m.size == 256,
        }
    }

    pub fn is_empty(&self) -> (r: bool)
        ensures
            r == spec_empty(*self),
    {
        match self {
            ArtNode::N0(_) => false,
            ArtNode::N4(m) => m.size == 0,
            ArtNode::N16(m) => m.size == 0,
            ArtNode::N48(m) => m.size == 0,
            ArtNode::N256(m) => m.size == 0,
        }
    }

    pub fn is_terminal(&self) -> (r: bool)
        ensures
            r == spec_terminal(*self),
    {
        match self {
            ArtNode::N0(m) => m.terminal,
            ArtNode::N4(m) => m.terminal,
            ArtNode::N16(m) => m.terminal,
            ArtNode::N48(m) => m.terminal,
            ArtNode::N256(m) => m.terminal,
        }
    }

    /// Inserts the bytes `values[from..]` below this node and returns the
    /// node that takes its place: the node itself, mutated, or the promoted
    /// node that supersedes it. The node's terminal keys grow by exactly the
    /// inserted suffix, its paths by that suffix's prefixes; nothing else
    /// changes — no key is lost and none appears from nowhere. The
    /// representation moves exactly one step along the promotion chain when
    /// the insertion must branch in a full node, and otherwise stays; the
    /// branch count rises by one exactly when the first remaining byte had
    /// no branch.
    pub fn add(self, values: &[u8], from: usize) -> (r: ArtNode)
        requires
            wf_node(self),
            from <= values@.len(),
        ensures
            wf_node(r),
            forall|s: Seq<u8>|
                has_term(r, s) == (has_term(self, s) || s == values@.skip(from as int)),
            forall|s: Seq<u8>|
                has_path(r, s) == (has_path(self, s) || is_prefix_of(
                    s,
                    values@.skip(from as int),
                )),
            promotions_left(r) == promotions_left(self) - (if from < values@.len() && spec_full(
                self,
            ) && spec_child(self, values@[from as int]) is None {
                1int
            } else {
                0int
            }),
            spec_size(r) == spec_size(self) + (if from < values@.len() && spec_child(
                self,
                values@[from as int],
            ) is None {
                1int
            } else {
                0int
            }),
            from == values@.len() ==> forall|x: u8| spec_child(r, x) == spec_child(self, x),
        decreases values@.len() - from, promotions_left(self), 2int,
    {
        let ghost g = self;
        let r = match self {
            ArtNode::N0(m) => m.add(values, from),
            ArtNode::N4(m) => m.add(values, from),
            ArtNode::N16(m) => m.add(values, from),
            ArtNode::N48(m) => m.add(values, from),
            ArtNode::N256(m) => {
                let res = m.add(values, from);
                proof {
                    // a saturated node is full only with every branch present,
                    // so it never meets the promotion condition
                    if from < values@.len() && spec_full(g) && spec_child(
                        g,
                        values@[from as int],
                    ) is None {
                        lemma_count_some_full(m.children@);
                        assert(false);
                    }
                }
                res
            },
        };
        proof {
            if from == values@.len() {
                assert forall|x: u8| spec_child(r, x) == spec_child(g, x) by {}
            }
        }
        r
    }

    /// The non-mutating walk mirroring `add`: follows `values[from..]` byte
    /// by byte and reports whether it ends on a terminal node.
    pub fn contains(&self, values: &[u8], from: usize) -> (r: bool)
        requires
            wf_node(*self),
            from <= values@.len(),
        ensures
            r == has_term(*self, values@.skip(from as int)),
        decreases values@.len() - from,
    {
        proof {
            if from == values@.len() {
                assert(values@.skip(from as int) =~= Seq::<u8>::empty());
            } else {
                assert(values@.skip(from as int)[0] == values@[from as int]);
                assert(values@.skip(from as int).skip(1) =~= values@.skip(from as int + 1));
            }
        }
        if from == values.len() {
            self.is_terminal()
        } else {
            let b = values[from];
            match self.descend(b) {
                Option::Some(child) => child.contains(values, from + 1),
                Option::None => false,
            }
        }
    }

    /// Follows `values[from..]` byte by byte and reports whether the whole
    /// path exists, terminal or not.
    pub fn contains_path(&self, values: &[u8], from: usize) -> (r: bool)
        requires
            wf_node(*self),
            from <= values@.len(),
        ensures
            r == has_path(*self, values@.skip(from as int)),
        decreases values@.len() - from,
    {
        proof {
            if from == values@.len() {
                assert(values@.skip(from as int) =~= Seq::<u8>::empty());
            } else {
                assert(values@.skip(from as int)[0] == values@[from as int]);
                assert(values@.skip(from as int).skip(1) =~= values@.skip(from as int + 1));
            }
        }
        if from == values.len() {
            true
        } else {
            let b = values[from];
            match self.descend(b) {
                Option::Some(child) => child.contains_path(values, from + 1),
                Option::None => false,
            }
        }
    }

    /// Borrows the branch for a byte, if the node has one.
    fn descend(&self, b: u8) -> (r: Option<&ArtNode>)
        requires
            wf_node(*self),
        ensures
            match r {
                Option::Some(c) => spec_child(*self, b) == Option::Some(*c) && wf_node(*c),
                Option::None => spec_child(*self, b) is None,
            },
    {
        match self {
            ArtNode::N0(_) => Option::None,
            ArtNode::N4(m) => match m.get_index(b) {
                NodeLocation::Exists(idx) => match &m.children[idx.child] {
                    Option::Some(bx) => Option::Some(&**bx),
                    Option::None => Option::None,
                },
                _ => Option::None,
            },
            ArtNode::N16(m) => match m.get_index(b) {
                NodeLocation::Exists(idx) => match &m.children[idx.child] {
                    Option::Some(bx) => Option::Some(&**bx),
                    Option::None => Option::None,
                },
                _ => Option::None,
            },
            ArtNode::N48(m) => match m.get_index(b) {
                NodeLocation::Exists(idx) => match &m.children[idx.child] {
                    Option::Some(bx) => Option::Some(&**bx),
                    Option::None => Option::None,
                },
                _ => Option::None,
            },
            ArtNode::N256(m) => match m.get_index(b) {
                NodeLocation::Exists(idx) => match &m.children[idx.child] {
                    Option::Some(bx) => Option::Some(&**bx),
                    Option::None => Option::None,
                },
                _ => Option::None,
            },
        }
    }
}

// ------------------------------------------------------------------
// Small executable helpers shared by the variants.
// ------------------------------------------------------------------

/// A child array of `n` empty slots.
pub fn empty_slots(n: usize) -> (r: Vec<NodeSlot>)
    ensures
        r@.len() == n,
        forall|i: int| 0 <= i < n ==> (#[trigger] r@[i]) is None,
{
    let mut r: Vec<NodeSlot> = Vec::new();
    let mut i: usize = 0;
    while i < n
        invariant
            i <= n,
            r@.len() == i,
            forall|j: int| 0 <= j < i ==> (#[trigger] r@[j]) is None,
        decreases n - i,
    {
        r.push(Option::None);
        i = i + 1;
    }
    r
}

/// A key array of `n` empty keys.
pub fn empty_keys(n: usize) -> (r: Vec<Option<u8>>)
    ensures
        r@.len() == n,
        forall|i: int| 0 <= i < n ==> (#[trigger] r@[i]) is None,
{
    let mut r: Vec<Option<u8>> = Vec::new();
    let mut i: usize = 0;
    while i < n
        invariant
            i <= n,
            r@.len() == i,
            forall|j: int| 0 <= j < i ==> (#[trigger] r@[j]) is None,
        decreases n - i,
    {
        r.push(Option::None);
        i = i + 1;
    }
    r
}

} // verus!
