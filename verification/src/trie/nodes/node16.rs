use vstd::prelude::*;
use std::cmp::Ordering;
use crate::trie::nodes::node::{
    empty_keys, empty_slots, has_path, has_term, is_prefix_of, key_val, lemma_child_insert,
    lemma_child_update, lemma_keyed_none, lemma_keyed_some, lemma_node0_model, lemma_node_equiv,
    lemma_prefix_empty, lemma_terminal_set, slot_node, spec_child, spec_child_keyed, spec_terminal,
    spec_size, val_cmp, sorted_keys, wf_keyed, wf_children, wf_node, ArtNode, KeyChildIndex,
    NodeLocation, NodeSlot,
};
use crate::trie::nodes::node0::Node0;
use crate::trie::nodes::node4::Node4;
use crate::trie::nodes::node48::Node48;

verus! {

broadcast use vstd::std_specs::vec::group_vec_axioms;

/// Up to sixteen branches, located by binary search of a key array kept in
/// ascending sorted order at all times.
pub struct Node16 {
    pub keys: Vec<Option<u8>>,
    pub children: Vec<NodeSlot>,
    pub size: usize,
    pub terminal: bool,
}

impl Node16 {
    pub fn new() -> (r: Node16)
        ensures
            wf_node(ArtNode::N16(r)),
            !r.terminal,
            r.size == 0,
            forall|x: u8| spec_child(ArtNode::N16(r), x) is None,
    {
        let r = Node16 {
            keys: empty_keys(16),
            children: empty_slots(16),
            size: 0,
            terminal: false,
        };
        proof {
            assert forall|x: u8| spec_child(ArtNode::N16(r), x) is None by {
                lemma_keyed_none(r.keys@, r.children@, 0, x);
            }
        }
        r
    }

    /// The promotion of a full `Node4`: its pairs are laid out in ascending
    /// key order; terminal flag and size carry over, every child moves over.
    pub fn from(mut node: Node4) -> (r: Node16)
        requires
            wf_node(ArtNode::N4(node)),
        ensures
            wf_node(ArtNode::N16(r)),
            r.size == node.size,
            spec_terminal(ArtNode::N16(r)) == spec_terminal(ArtNode::N4(node)),
            forall|x: u8|
                spec_child(ArtNode::N16(r), x) == spec_child(ArtNode::N4(node), x),
    {
        let ghost okeys = node.keys@;
        let ghost ochildren = node.children@;
        let ghost osize = node.size as int;
        let ghost oterm = node.terminal;
        let mut new_node = Node16 {
            keys: empty_keys(16),
            children: empty_slots(16),
            size: 0,
            terminal: node.terminal,
        };
        let count = node.size;
        let mut i: usize = 0;
        while i < count
            invariant
                wf_node(ArtNode::N16(new_node)),
                wf_keyed(okeys, ochildren, osize, 4),
                wf_children(ochildren),
                i <= count,
                count as int == osize,
                new_node.size == i,
                new_node.terminal == oterm,
                node.keys@ == okeys,
                node.children@.len() == 4,
                forall|j: int| i <= j < 4 ==> node.children@[j] == ochildren[j],
                forall|x: u8|
                    spec_child(ArtNode::N16(new_node), x) == spec_child_keyed(
                        okeys,
                        ochildren,
                        i as int,
                        x,
                    ),
            decreases count - i,
        {
            let k: u8 = node.keys[i].unwrap();
            let ghost pre = node.children@;
            let slot = node.children.remove(i);
            node.children.insert(i, Option::None);
            proof {
                assert(node.children@ =~= pre.update(i as int, Option::None));
                assert(slot == pre[i as int]);
                assert(slot == ochildren[i as int]);
            }
            let child: ArtNode = *slot.unwrap();
            // the key is new to the target: its lookup among the pairs moved
            // so far comes up empty
            proof {
                assert forall|j2: int| 0 <= j2 < i implies (#[trigger] okeys[j2])
                    != Option::Some(k) by {
                    assert(key_val(okeys[j2]) != key_val(okeys[i as int]));
                }
                lemma_keyed_none(okeys, ochildren, i as int, k);
                assert(spec_child(ArtNode::N16(new_node), k) is None);
                assert forall|j: int| 0 <= j < new_node.size implies (#[trigger]
                    new_node.keys@[j]) != Option::Some(k) by {
                    if new_node.keys@[j] == Option::Some(k) {
                        lemma_keyed_some(
                            new_node.keys@,
                            new_node.children@,
                            new_node.size as int,
                            k,
                            j,
                        );
                        assert(new_node.children@[j] is Some);
                        assert(false);
                    }
                }
            }
            // find the sorted insertion position among the pairs moved so far
            let mut pos: usize = 0;
            while pos < new_node.size && new_node.keys[pos].unwrap() < k
                invariant
                    wf_node(ArtNode::N16(new_node)),
                    pos <= new_node.size,
                    forall|j: int| 0 <= j < pos ==> key_val(#[trigger] new_node.keys@[j]) < k as int,
                    forall|j: int|
                        0 <= j < new_node.size ==> (#[trigger] new_node.keys@[j]) != Option::Some(
                            k,
                        ),
                decreases new_node.size - pos,
            {
                pos = pos + 1;
            }
            proof {
                assert forall|j: int|
                    pos <= j < new_node.size implies key_val(#[trigger] new_node.keys@[j])
                    > k as int by {
                    if j == pos {
                        assert(new_node.keys@[j] is Some);
                        assert(key_val(new_node.keys@[j]) != k as int);
                    } else {
                        assert(key_val(new_node.keys@[pos as int]) >= k as int);
                        assert(key_val(new_node.keys@[pos as int]) != k as int);
                        assert(key_val(new_node.keys@[pos as int]) < key_val(new_node.keys@[j]));
                    }
                }
            }
            new_node = new_node.insert_pair(pos, k, child);
            proof {
                assert forall|x: u8|
                    spec_child(ArtNode::N16(new_node), x) == spec_child_keyed(
                        okeys,
                        ochildren,
                        i as int + 1,
                        x,
                    ) by {
                    if x == k {
                        lemma_keyed_some(okeys, ochildren, i as int + 1, k, i as int);
                    } else {
                        if exists|j: int| 0 <= j < i && okeys[j] == Option::Some(x) {
                            let j = choose|j: int| 0 <= j < i && okeys[j] == Option::Some(x);
                            lemma_keyed_some(okeys, ochildren, i as int, x, j);
                            lemma_keyed_some(okeys, ochildren, i as int + 1, x, j);
                        } else {
                            lemma_keyed_none(okeys, ochildren, i as int, x);
                            lemma_keyed_none(okeys, ochildren, i as int + 1, x);
                        }
                    }
                }
            }
            i = i + 1;
        }
        new_node
    }

    /// Places a pair at its sorted position, shifting the tail one slot right.
    fn insert_pair(self, pos: usize, first: u8, child: ArtNode) -> (r: Node16)
        requires
            wf_node(ArtNode::N16(self)),
            wf_node(child),
            self.size < 16,
            pos <= self.size,
            forall|i: int| 0 <= i < pos ==> key_val(#[trigger] self.keys@[i]) < first as int,
            forall|i: int|
                pos <= i < self.size ==> key_val(#[trigger] self.keys@[i]) > first as int,
        ensures
            wf_node(ArtNode::N16(r)),
            r.terminal == self.terminal,
            r.size == self.size + 1,
            spec_child(ArtNode::N16(r), first) == Option::Some(child),
            forall|y: u8|
                y != first ==> spec_child(ArtNode::N16(r), y) == spec_child(ArtNode::N16(self), y),
            r.keys@ == self.keys@.insert(pos as int, Option::Some(first)).subrange(0, 16),
            forall|j: int| 0 <= j < pos ==> #[trigger] r.children@[j] == self.children@[j],
            forall|j: int| pos < j < 16 ==> #[trigger] r.children@[j] == self.children@[j - 1],
            r.children@[pos as int] is Some,
    {
        let mut this = self;
        let ghost okeys = this.keys@;
        let ghost ochildren = this.children@;
        let ghost osize = this.size as int;
        this.keys.insert(pos, Option::Some(first));
        this.keys.pop();
        this.children.insert(pos, Option::Some(Box::new(child)));
        this.children.pop();
        this.size = this.size + 1;
        proof {
            let nkeys = this.keys@;
            let nchildren = this.children@;
            assert(nkeys.len() == 16);
            assert(nchildren.len() == 16);
            assert forall|i: int| 0 <= i < 16 implies (nkeys[i] == (if i < pos {
                okeys[i]
            } else if i == pos {
                Option::Some(first)
            } else {
                okeys[i - 1]
            }) && nchildren[i] == (if i < pos {
                ochildren[i]
            } else if i == pos {
                Option::Some(Box::new(child))
            } else {
                ochildren[i - 1]
            })) by {
                assert(nkeys[i] == okeys.insert(pos as int, Option::Some(first)).subrange(
                    0,
                    16,
                )[i]);
                assert(nchildren[i] == ochildren.insert(
                    pos as int,
                    Option::Some(Box::new(child)),
                ).subrange(0, 16)[i]);
            }
            assert(nkeys =~= okeys.insert(pos as int, Option::Some(first)).subrange(0, 16));
            lemma_keyed_some(nkeys, nchildren, osize + 1, first, pos as int);
            assert forall|y: u8| y != first implies spec_child_keyed(nkeys, nchildren, osize + 1, y)
                == spec_child_keyed(okeys, ochildren, osize, y) by {
                if exists|i: int| 0 <= i < osize && okeys[i] == Option::Some(y) {
                    let i = choose|i: int| 0 <= i < osize && okeys[i] == Option::Some(y);
                    lemma_keyed_some(okeys, ochildren, osize, y, i);
                    if i < pos {
                        lemma_keyed_some(nkeys, nchildren, osize + 1, y, i);
                    } else {
                        lemma_keyed_some(nkeys, nchildren, osize + 1, y, i + 1);
                    }
                } else {
                    lemma_keyed_none(okeys, ochildren, osize, y);
                    lemma_keyed_none(nkeys, nchildren, osize + 1, y);
                }
            }
        }
        this
    }

    /// Locates the branch for a byte by binary search of the sorted keys.
    pub fn get_index(&self, value: u8) -> (r: NodeLocation)
        requires
            wf_node(ArtNode::N16(*self)),
        ensures
            match r {
                NodeLocation::Exists(idx) => {
                    &&& idx.key == idx.child
                    &&& idx.child < self.size
                    &&& self.keys@[idx.key as int] == Option::Some(value)
                    &&& self.children@[idx.child as int] is Some
                    &&& spec_child(ArtNode::N16(*self), value) == slot_node(
                        self.children@[idx.child as int],
                    )
                },
                NodeLocation::Insert(idx) => {
                    &&& idx.key == idx.child
                    &&& idx.key <= self.size
                    &&& self.size < 16
                    &&& spec_child(ArtNode::N16(*self), value) is None
                    &&& forall|i: int|
                        0 <= i < idx.key ==> key_val(#[trigger] self.keys@[i]) < value as int
                    &&& forall|i: int|
                        idx.key <= i < self.size ==> key_val(#[trigger] self.keys@[i])
                            > value as int
                },
                NodeLocation::Upgrade => {
                    &&& self.size == 16
                    &&& spec_child(ArtNode::N16(*self), value) is None
                },
            },
    {
        let mut lo: usize = 0;
        let mut hi: usize = self.size;
        while lo < hi
            invariant
                wf_node(ArtNode::N16(*self)),
                lo <= hi <= self.size,
                forall|i: int| 0 <= i < lo ==> key_val(#[trigger] self.keys@[i]) < value as int,
                forall|i: int|
                    hi <= i < self.size ==> key_val(#[trigger] self.keys@[i]) > value as int,
            decreases hi - lo,
        {
            let mid = lo + (hi - lo) / 2;
            let probe = self.keys[mid];
            let target = Option::Some(value);
            let ord = val_cmp(&probe, &target);
            match ord {
                Ordering::Less => {
                    proof {
                        assert forall|i: int|
                            0 <= i < mid + 1 implies key_val(#[trigger] self.keys@[i])
                            < value as int by {
                            if i < mid {
                                assert(key_val(self.keys@[i]) < key_val(self.keys@[mid as int]));
                            }
                        }
                    }
                    lo = mid + 1;
                },
                Ordering::Greater => {
                    proof {
                        assert forall|i: int|
                            mid <= i < self.size implies key_val(#[trigger] self.keys@[i])
                            > value as int by {
                            if i > mid {
                                assert(key_val(self.keys@[mid as int]) < key_val(self.keys@[i]));
                            }
                        }
                    }
                    hi = mid;
                },
                Ordering::Equal => {
                    proof {
                        assert(self.keys@[mid as int] is Some);
                        assert(self.keys@[mid as int] == Option::Some(value));
                        lemma_keyed_some(
                            self.keys@,
                            self.children@,
                            self.size as int,
                            value,
                            mid as int,
                        );
                    }
                    return NodeLocation::Exists(KeyChildIndex { key: mid, child: mid });
                },
            }
        }
        proof {
            assert forall|i: int|
                0 <= i < self.size implies (#[trigger] self.keys@[i]) != Option::Some(value) by {
                assert(key_val(self.keys@[i]) != value as int);
            }
            lemma_keyed_none(self.keys@, self.children@, self.size as int, value);
        }
        if self.size < 16 {
            NodeLocation::Insert(KeyChildIndex { key: lo, child: lo })
        } else {
            NodeLocation::Upgrade
        }
    }

    /// Inserts the bytes `values[from..]` at this node; see `Node4::add`.
    pub fn add(self, values: &[u8], from: usize) -> (r: ArtNode)
        requires
            wf_node(ArtNode::N16(self)),
            from <= values@.len(),
        ensures
            wf_node(r),
            forall|s: Seq<u8>|
                has_term(r, s) == (has_term(ArtNode::N16(self), s) || s == values@.skip(
                    from as int,
                )),
            forall|s: Seq<u8>|
                has_path(r, s) == (has_path(ArtNode::N16(self), s) || is_prefix_of(
                    s,
                    values@.skip(from as int),
                )),
            from == values@.len() ==> (r matches ArtNode::N16(m) && m.keys@ == self.keys@
                && m.children@ == self.children@ && m.size == self.size && m.terminal),
            (from < values@.len() && self.size == 16 && spec_child(
                ArtNode::N16(self),
                values@[from as int],
            ) is None) ==> r is N48,
            (from < values@.len() && !(self.size == 16 && spec_child(
                ArtNode::N16(self),
                values@[from as int],
            ) is None)) ==> r is N16,
            spec_size(r) == self.size + (if from < values@.len() && spec_child(
                ArtNode::N16(self),
                values@[from as int],
            ) is None {
                1int
            } else {
                0int
            }),
            (from < values@.len() && spec_child(ArtNode::N16(self), values@[from as int]) is Some)
                ==> (r matches ArtNode::N16(m) && m.keys@ == self.keys@ && m.size == self.size
                && m.terminal == self.terminal && (forall|j: int|
                0 <= j < 16 && self.keys@[j] != Option::Some(values@[from as int])
                    ==> #[trigger] m.children@[j] == self.children@[j])),
        decreases values@.len() - from, 2int, 1int,
    {
        let mut this = self;
        if from == values.len() {
            let ghost a = ArtNode::N16(this);
            this.terminal = true;
            proof {
                assert(values@.skip(from as int) =~= Seq::<u8>::empty());
                lemma_terminal_set(a, ArtNode::N16(this));
            }
            ArtNode::N16(this)
        } else {
            let first = values[from];
            match this.get_index(first) {
                NodeLocation::Exists(index) => this.exists_add(index, values, from),
                NodeLocation::Insert(index) => this.insert_add(index, first, values, from),
                NodeLocation::Upgrade => this.upgrade_add(values, from),
            }
        }
    }

    /// The byte already has a branch: recurse into it and store the child
    /// back (it may have promoted itself).
    pub fn exists_add(self, index: KeyChildIndex, values: &[u8], from: usize) -> (r: ArtNode)
        requires
            wf_node(ArtNode::N16(self)),
            from < values@.len(),
            index.key == index.child,
            index.child < self.size,
            self.keys@[index.key as int] == Option::Some(values@[from as int]),
        ensures
            wf_node(r),
            forall|s: Seq<u8>|
                has_term(r, s) == (has_term(ArtNode::N16(self), s) || s == values@.skip(
                    from as int,
                )),
            forall|s: Seq<u8>|
                has_path(r, s) == (has_path(ArtNode::N16(self), s) || is_prefix_of(
                    s,
                    values@.skip(from as int),
                )),
            r matches ArtNode::N16(m) && m.keys@ == self.keys@ && m.size == self.size
                && m.terminal == self.terminal && (forall|j: int|
                0 <= j < 16 && j != index.child ==> #[trigger] m.children@[j]
                    == self.children@[j]) && m.children@[index.child as int] is Some,
        decreases values@.len() - from, 2int, 0int,
    {
        let mut this = self;
        let ghost a = ArtNode::N16(this);
        let ghost okeys = this.keys@;
        let ghost ochildren = this.children@;
        let ghost osize = this.size as int;
        let ghost t = values@.skip(from as int);
        let first = values[from];
        let ci = index.child;
        let slot = this.children.remove(ci);
        let child: ArtNode = match slot {
            Option::Some(bx) => *bx,
            Option::None => ArtNode::N0(Node0::new()),
        };
        proof {
            assert(slot == ochildren[ci as int]);
            assert(wf_node(child));
        }
        let new_child = child.add(values, from + 1);
        this.children.insert(ci, Option::Some(Box::new(new_child)));
        proof {
            assert(this.children@ =~= ochildren.update(
                ci as int,
                Option::Some(Box::new(new_child)),
            ));
            let b = ArtNode::N16(this);
            assert forall|y: u8| y != first implies spec_child(b, y) == spec_child(a, y) by {
                if exists|i: int| 0 <= i < osize && okeys[i] == Option::Some(y) {
                    let i = choose|i: int| 0 <= i < osize && okeys[i] == Option::Some(y);
                    lemma_keyed_some(okeys, ochildren, osize, y, i);
                    lemma_keyed_some(okeys, this.children@, osize, y, i);
                } else {
                    lemma_keyed_none(okeys, ochildren, osize, y);
                    lemma_keyed_none(okeys, this.children@, osize, y);
                }
            }
            lemma_keyed_some(okeys, ochildren, osize, first, ci as int);
            lemma_keyed_some(okeys, this.children@, osize, first, ci as int);
            assert(t[0] == first);
            assert(t.skip(1) =~= values@.skip(from as int + 1));
            lemma_child_update(a, b, child, new_child, t);
        }
        ArtNode::N16(this)
    }

    /// The byte has no branch and there is room: place the key at its sorted
    /// position with a fresh child built from the remaining bytes.
    pub fn insert_add(self, index: KeyChildIndex, first: u8, values: &[u8], from: usize) -> (r:
        ArtNode)
        requires
            wf_node(ArtNode::N16(self)),
            from < values@.len(),
            values@[from as int] == first,
            index.key == index.child,
            index.key <= self.size,
            self.size < 16,
            forall|i: int|
                0 <= i < index.key ==> key_val(#[trigger] self.keys@[i]) < first as int,
            forall|i: int|
                index.key <= i < self.size ==> key_val(#[trigger] self.keys@[i]) > first as int,
        ensures
            wf_node(r),
            forall|s: Seq<u8>|
                has_term(r, s) == (has_term(ArtNode::N16(self), s) || s == values@.skip(
                    from as int,
                )),
            forall|s: Seq<u8>|
                has_path(r, s) == (has_path(ArtNode::N16(self), s) || is_prefix_of(
                    s,
                    values@.skip(from as int),
                )),
            r matches ArtNode::N16(m) && m.size == self.size + 1 && m.terminal == self.terminal
                && m.keys@ == self.keys@.insert(index.key as int, Option::Some(first)).subrange(
                0,
                16,
            ) && (forall|j: int|
                0 <= j < index.key ==> #[trigger] m.children@[j] == self.children@[j]) && (forall|
                j: int,
            |
                index.key < j < 16 ==> #[trigger] m.children@[j] == self.children@[j - 1])
                && m.children@[index.key as int] is Some,
        decreases values@.len() - from, 2int, 0int,
    {
        let ghost a = ArtNode::N16(self);
        let ghost t = values@.skip(from as int);
        let n = values.len();
        proof {
            assert(from < n);
        }
        let base = Node0::new();
        let ghost gbase = base;
        let child = base.add(values, from + 1);
        proof {
            lemma_node0_model(gbase);
            assert forall|s: Seq<u8>|
                has_path(child, s) == is_prefix_of(s, values@.skip(from as int + 1)) by {
                if s.len() == 0 {
                    assert(s =~= values@.skip(from as int + 1).subrange(0, 0));
                }
            }
            lemma_prefix_empty(values@.skip(from as int + 1));
            assert(t[0] == first);
            assert(t.skip(1) =~= values@.skip(from as int + 1));
            assert forall|i: int|
                0 <= i < self.size implies (#[trigger] self.keys@[i]) != Option::Some(first) by {
                assert(key_val(self.keys@[i]) != first as int);
            }
            lemma_keyed_none(self.keys@, self.children@, self.size as int, first);
        }
        let new_self = self.insert_pair(index.key, first, child);
        proof {
            lemma_child_insert(a, ArtNode::N16(new_self), child, t);
        }
        ArtNode::N16(new_self)
    }

    /// The byte has no branch and the node is full: promote to a `Node48`
    /// and retry the insertion there.
    pub fn upgrade_add(self, values: &[u8], from: usize) -> (r: ArtNode)
        requires
            wf_node(ArtNode::N16(self)),
            from < values@.len(),
        ensures
            wf_node(r),
            forall|s: Seq<u8>|
                has_term(r, s) == (has_term(ArtNode::N16(self), s) || s == values@.skip(
                    from as int,
                )),
            forall|s: Seq<u8>|
                has_path(r, s) == (has_path(ArtNode::N16(self), s) || is_prefix_of(
                    s,
                    values@.skip(from as int),
                )),
            r is N48,
            spec_size(r) == self.size + (if spec_child(
                ArtNode::N16(self),
                values@[from as int],
            ) is None {
                1int
            } else {
                0int
            }),
        decreases values@.len() - from, 2int, 0int,
    {
        let ghost a = ArtNode::N16(self);
        let upgraded = Node48::from(self);
        proof {
            lemma_node_equiv(a, ArtNode::N48(upgraded));
        }
        upgraded.add(values, from)
    }
}

/// The sorted invariant: however a `Node16` came to be — fresh, promoted
/// from a `Node4`, or grown by insertions — its populated keys are in
/// strictly ascending order, with the unpopulated slots after them.
pub proof fn lemma_node16_keys_sorted(m: Node16)
    requires
        wf_node(ArtNode::N16(m)),
    ensures
        sorted_keys(m.keys@, m.size as int),
        forall|i: int| 0 <= i < m.size ==> (#[trigger] m.keys@[i]) is Some,
        forall|i: int| m.size <= i < 16 ==> (#[trigger] m.keys@[i]) is None,
{
}

} // verus!
