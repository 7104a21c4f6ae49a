use vstd::prelude::*;
use crate::trie::nodes::node::{
    count_some, empty_slots, has_path, has_term, is_prefix_of, key_val, lemma_child_insert,
    lemma_child_update, lemma_count_some_agree, lemma_count_some_full, lemma_count_some_none,
    lemma_count_some_update, lemma_node0_model, lemma_node_equiv, lemma_prefix_empty,
    lemma_terminal_set, slot_node, spec_child, spec_size, spec_terminal, wf_children, wf_node,
    ArtNode, KeyChildIndex, NodeLocation, NodeSlot,
};
use crate::trie::nodes::node0::Node0;
use crate::trie::nodes::node48::Node48;

verus! {

broadcast use vstd::std_specs::vec::group_vec_axioms;

/// Up to 256 branches, directly indexed by byte value; the saturated
/// representation, which never promotes further.
pub struct Node256 {
    pub children: Vec<NodeSlot>,
    pub size: usize,
    pub terminal: bool,
}

impl Node256 {
    pub fn new() -> (r: Node256)
        ensures
            wf_node(ArtNode::N256(r)),
            !r.terminal,
            r.size == 0,
            forall|x: u8| spec_child(ArtNode::N256(r), x) is None,
    {
        let r = Node256 { children: empty_slots(256), size: 0, terminal: false };
        proof {
            lemma_count_some_none(r.children@);
        }
        r
    }

    /// The promotion of a full `Node48`: the compact child array is expanded
    /// into a directly indexed one through the indirection table.
    pub fn from(mut node: Node48) -> (r: Node256)
        requires
            wf_node(ArtNode::N48(node)),
        ensures
            wf_node(ArtNode::N256(r)),
            r.size == node.size,
            spec_terminal(ArtNode::N256(r)) == spec_terminal(ArtNode::N48(node)),
            forall|x: u8|
                spec_child(ArtNode::N256(r), x) == spec_child(ArtNode::N48(node), x),
    {
        let ghost onode = node;
        let ghost okeys = node.keys@;
        let ghost ochildren = node.children@;
        let ghost osize = node.size as int;
        let ghost oterm = node.terminal;
        let count = node.size;
        let term = node.terminal;
        let mut new_children = empty_slots(256);
        let mut b: usize = 0;
        while b < 256
            invariant
                b <= 256,
                node.keys@ == okeys,
                count as int == osize,
                term == oterm,
                node.children@.len() == 48,
                okeys.len() == 256,
                ochildren.len() == 48,
                0 <= osize <= 48,
                forall|y: int|
                    0 <= y < 256 && (#[trigger] okeys[y]) is Some ==> 0 <= key_val(okeys[y])
                        < osize,
                forall|i: int| 0 <= i < osize ==> (#[trigger] ochildren[i]) is Some,
                forall|y1: int, y2: int|
                    0 <= y1 < y2 < 256 && (#[trigger] okeys[y1]) is Some && (#[trigger] okeys[y2])
                        is Some ==> key_val(okeys[y1]) != key_val(okeys[y2]),
                forall|i: int|
                    0 <= i < ochildren.len() ==> #[trigger] node.children@[i] == (if exists|y: int|
                        0 <= y < b && okeys[y] is Some && key_val(okeys[y]) == i {
                        Option::None
                    } else {
                        ochildren[i]
                    }),
                new_children@.len() == 256,
                forall|y: int|
                    0 <= y < b ==> #[trigger] new_children@[y] == (match okeys[y] {
                        Option::Some(ci) => ochildren[key_val(okeys[y])],
                        Option::None => Option::None,
                    }),
                forall|y: int| b <= y < 256 ==> (#[trigger] new_children@[y]) is None,
            decreases 256 - b,
        {
            let k = node.keys[b];
            if k.is_some() {
                let ci = k.unwrap() as usize;
                proof {
                    assert(okeys[b as int] is Some);
                    assert(0 <= key_val(okeys[b as int]) < osize);
                    assert forall|y: int|
                        0 <= y < b implies !(okeys[y] is Some && key_val(#[trigger] okeys[y])
                            == ci as int) by {
                        if okeys[y] is Some && key_val(okeys[y]) == ci as int {
                            assert(key_val(okeys[y]) != key_val(okeys[b as int]));
                        }
                    }
                    assert(node.children@[ci as int] == ochildren[ci as int]);
                }
                let ghost nch = node.children@;
                let slot = node.children.remove(ci);
                node.children.insert(ci, Option::None);
                proof {
                    assert(node.children@ =~= nch.update(ci as int, Option::None));
                    assert(slot == ochildren[ci as int]);
                }
                new_children.set(b, slot);
            }
            b = b + 1;
        }
        let r = Node256 { children: new_children, size: count, terminal: term };
        proof {
            assert forall|i: int|
                0 <= i < 256 implies ((#[trigger] r.children@[i]) is Some <==> okeys[i]
                is Some) by {}
            lemma_count_some_agree(r.children@, okeys);
            assert(count_some(r.children@) == osize);
            assert forall|x: u8|
                spec_child(ArtNode::N256(r), x) == spec_child(ArtNode::N48(onode), x) by {}
        }
        r
    }

    /// Locates the branch for a byte by direct indexing; a missing branch
    /// always has room here, so this never reports `Upgrade`.
    pub fn get_index(&self, value: u8) -> (r: NodeLocation)
        requires
            wf_node(ArtNode::N256(*self)),
        ensures
            match r {
                NodeLocation::Exists(idx) => {
                    &&& idx.key == 0
                    &&& idx.child == value as usize
                    &&& self.children@[value as int] is Some
                    &&& spec_child(ArtNode::N256(*self), value) == slot_node(
                        self.children@[value as int],
                    )
                },
                NodeLocation::Insert(idx) => {
                    &&& idx.key == 0
                    &&& idx.child == value as usize
                    &&& self.children@[value as int] is None
                    &&& spec_child(ArtNode::N256(*self), value) is None
                },
                NodeLocation::Upgrade => false,
            },
    {
        let cur_value_index = value as usize;
        if self.children[cur_value_index].is_some() {
            NodeLocation::Exists(KeyChildIndex { key: 0, child: cur_value_index })
        } else {
            NodeLocation::Insert(KeyChildIndex { key: 0, child: cur_value_index })
        }
    }

    /// Inserts the bytes `values[from..]` at this node; see `Node4::add`.
    /// This node never promotes: a missing branch is filled in place.
    pub fn add(self, values: &[u8], from: usize) -> (r: ArtNode)
        requires
            wf_node(ArtNode::N256(self)),
            from <= values@.len(),
        ensures
            wf_node(r),
            forall|s: Seq<u8>|
                has_term(r, s) == (has_term(ArtNode::N256(self), s) || s == values@.skip(
                    from as int,
                )),
            forall|s: Seq<u8>|
                has_path(r, s) == (has_path(ArtNode::N256(self), s) || is_prefix_of(
                    s,
                    values@.skip(from as int),
                )),
            r is N256,
            from == values@.len() ==> (r matches ArtNode::N256(m)
                && m.children@ == self.children@ && m.size == self.size && m.terminal),
            spec_size(r) == self.size + (if from < values@.len() && spec_child(
                ArtNode::N256(self),
                values@[from as int],
            ) is None {
                1int
            } else {
                0int
            }),
            (from < values@.len() && spec_child(ArtNode::N256(self), values@[from as int])
                is Some) ==> (r matches ArtNode::N256(m) && m.size == self.size
                && m.terminal == self.terminal && (forall|j: int|
                0 <= j < 256 && j != values@[from as int] ==> #[trigger] m.children@[j]
                    == self.children@[j])),
            (from < values@.len() && spec_child(ArtNode::N256(self), values@[from as int])
                is None) ==> (r matches ArtNode::N256(m) && m.size == self.size + 1
                && m.terminal == self.terminal && (forall|j: int|
                0 <= j < 256 && j != values@[from as int] ==> #[trigger] m.children@[j]
                    == self.children@[j]) && m.children@[values@[from as int] as int] is Some),
        decreases values@.len() - from, 0int, 1int,
    {
        let mut this = self;
        if from == values.len() {
            let ghost a = ArtNode::N256(this);
            this.terminal = true;
            proof {
                assert(values@.skip(from as int) =~= Seq::<u8>::empty());
                lemma_terminal_set(a, ArtNode::N256(this));
            }
            ArtNode::N256(this)
        } else {
            let first = values[from];
            match this.get_index(first) {
                NodeLocation::Exists(index) => this.exists_add(index, values, from),
                NodeLocation::Insert(index) => this.insert_add(index, first, values, from),
                NodeLocation::Upgrade => this.insert_add(
                    KeyChildIndex { key: 0, child: first as usize },
                    first,
                    values,
                    from,
                ),
            }
        }
    }

    /// The byte already has a branch: recurse into it and store the child
    /// back (it may have promoted itself).
    pub fn exists_add(self, index: KeyChildIndex, values: &[u8], from: usize) -> (r: ArtNode)
        requires
            wf_node(ArtNode::N256(self)),
            from < values@.len(),
            index.child == values@[from as int] as usize,
            self.children@[index.child as int] is Some,
        ensures
            wf_node(r),
            forall|s: Seq<u8>|
                has_term(r, s) == (has_term(ArtNode::N256(self), s) || s == values@.skip(
                    from as int,
                )),
            forall|s: Seq<u8>|
                has_path(r, s) == (has_path(ArtNode::N256(self), s) || is_prefix_of(
                    s,
                    values@.skip(from as int),
                )),
            r matches ArtNode::N256(m) && m.size == self.size && m.terminal == self.terminal
                && (forall|j: int|
                0 <= j < 256 && j != index.child ==> #[trigger] m.children@[j]
                    == self.children@[j]) && m.children@[index.child as int] is Some,
        decreases values@.len() - from, 0int, 0int,
    {
        let mut this = self;
        let ghost a = ArtNode::N256(this);
        let ghost ochildren = this.children@;
        let ghost t = values@.skip(from as int);
        let first = values[from];
        let ci = index.child;
        let slot = this.children.remove(ci);
        let child: ArtNode = match slot {
            Option::Some(bx) => *bx,
            Option::None => ArtNode::N0(Node0::new()),
        };
        proof {
            assert(slot == ochildren[ci as int]);
            assert(wf_node(child));
        }
        let new_child = child.add(values, from + 1);
        this.children.insert(ci, Option::Some(Box::new(new_child)));
        proof {
            assert(this.children@ =~= ochildren.update(
                ci as int,
                Option::Some(Box::new(new_child)),
            ));
            lemma_count_some_update(ochildren, ci as int, Option::Some(Box::new(new_child)));
            let b = ArtNode::N256(this);
            assert(t[0] == first);
            assert(t.skip(1) =~= values@.skip(from as int + 1));
            lemma_child_update(a, b, child, new_child, t);
        }
        ArtNode::N256(this)
    }

    /// The byte has no branch: fill its slot with a fresh child built from
    /// the remaining bytes.
    pub fn insert_add(self, index: KeyChildIndex, first: u8, values: &[u8], from: usize) -> (r:
        ArtNode)
        requires
            wf_node(ArtNode::N256(self)),
            from < values@.len(),
            values@[from as int] == first,
            index.child == first as usize,
            self.children@[index.child as int] is None,
        ensures
            wf_node(r),
            forall|s: Seq<u8>|
                has_term(r, s) == (has_term(ArtNode::N256(self), s) || s == values@.skip(
                    from as int,
                )),
            forall|s: Seq<u8>|
                has_path(r, s) == (has_path(ArtNode::N256(self), s) || is_prefix_of(
                    s,
                    values@.skip(from as int),
                )),
            r matches ArtNode::N256(m) && m.size == self.size + 1 && m.terminal == self.terminal
                && (forall|j: int|
                0 <= j < 256 && j != index.child ==> #[trigger] m.children@[j]
                    == self.children@[j]) && m.children@[index.child as int] is Some,
        decreases values@.len() - from, 0int, 0int,
    {
        let mut this = self;
        let ghost a = ArtNode::N256(this);
        let ghost ochildren = this.children@;
        let ghost t = values@.skip(from as int);
        let n = values.len();
        proof {
            assert(from < n);
        }
        let base = Node0::new();
        let ghost gbase = base;
        let child = base.add(values, from + 1);
        proof {
            lemma_node0_model(gbase);
            assert forall|s: Seq<u8>|
                has_path(child, s) == is_prefix_of(s, values@.skip(from as int + 1)) by {
                if s.len() == 0 {
                    assert(s =~= values@.skip(from as int + 1).subrange(0, 0));
                }
            }
            lemma_prefix_empty(values@.skip(from as int + 1));
            assert(t[0] == first);
            assert(t.skip(1) =~= values@.skip(from as int + 1));
            // the empty slot bounds the size strictly below capacity
            if this.size == 256 {
                lemma_count_some_full(ochildren);
                assert(false);
            }
            lemma_count_some_update(ochildren, first as int, Option::Some(Box::new(child)));
        }
        this.children.set(first as usize, Option::Some(Box::new(child)));
        this.size = this.size + 1;
        proof {
            let b = ArtNode::N256(this);
            lemma_child_insert(a, b, child, t);
        }
        ArtNode::N256(this)
    }
}

} // verus!
