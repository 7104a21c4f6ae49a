use vstd::prelude::*;
use crate::trie::nodes::node::{
    count_some, empty_keys, empty_slots, has_path, has_term, is_prefix_of, key_val,
    lemma_child_insert, lemma_child_update, lemma_count_some_none, lemma_count_some_update,
    lemma_keyed_none, lemma_keyed_some, lemma_node0_model, lemma_node_equiv, lemma_prefix_empty,
    lemma_terminal_set, slot_node, spec_child, spec_size, spec_terminal, wf48, wf_keyed,
    wf_children, wf_slot, wf_node, ArtNode, KeyChildIndex, NodeLocation, NodeSlot,
};
use crate::trie::nodes::node0::Node0;
use crate::trie::nodes::node16::Node16;
use crate::trie::nodes::node256::Node256;

verus! {

broadcast use vstd::std_specs::vec::group_vec_axioms;

/// Up to 48 branches: a 256-wide table maps a byte directly to the slot of
/// its child in a compact 48-wide child array.
pub struct Node48 {
    pub keys: Vec<Option<u8>>,
    pub children: Vec<NodeSlot>,
    pub size: usize,
    pub terminal: bool,
}

impl Node48 {
    pub fn new() -> (r: Node48)
        ensures
            wf_node(ArtNode::N48(r)),
            !r.terminal,
            r.size == 0,
            forall|x: u8| spec_child(ArtNode::N48(r), x) is None,
    {
        let r = Node48 {
            keys: empty_keys(256),
            children: empty_slots(48),
            size: 0,
            terminal: false,
        };
        proof {
            lemma_count_some_none(r.keys@);
        }
        r
    }

    /// The promotion of a full `Node16`: the 256-wide table is built from the
    /// sorted pairs, each child keeping its position as its slot index.
    pub fn from(mut node: Node16) -> (r: Node48)
        requires
            wf_node(ArtNode::N16(node)),
        ensures
            wf_node(ArtNode::N48(r)),
            r.size == node.size,
            spec_terminal(ArtNode::N48(r)) == spec_terminal(ArtNode::N16(node)),
            forall|x: u8|
                spec_child(ArtNode::N48(r), x) == spec_child(ArtNode::N16(node), x),
            forall|i: int| 0 <= i < node.size ==> #[trigger] r.children@[i] == node.children@[i],
            forall|i: int|
                0 <= i < node.size ==> r.keys@[key_val(#[trigger] node.keys@[i])] == Option::Some(
                    i as u8,
                ),
            forall|b: int|
                0 <= b < 256 && (#[trigger] r.keys@[b]) is Some ==> 0 <= key_val(r.keys@[b])
                    < node.size && node.keys@[key_val(r.keys@[b])] == Option::Some(b as u8),
    {
        let ghost onode = node;
        let ghost okeys = node.keys@;
        let ghost ochildren = node.children@;
        let ghost osize = node.size as int;
        let ghost oterm = node.terminal;
        let mut keys48 = empty_keys(256);
        let mut children48 = empty_slots(48);
        proof {
            lemma_count_some_none(keys48@);
        }
        let count = node.size;
        let term = node.terminal;
        let mut i: usize = 0;
        while i < count
            invariant
                wf_keyed(okeys, ochildren, osize, 16),
                wf_children(ochildren),
                i <= count,
                count as int == osize,
                term == oterm,
                node.keys@ == okeys,
                node.children@.len() == 16,
                keys48@.len() == 256,
                children48@.len() == 48,
                forall|j: int| i <= j < 16 ==> node.children@[j] == ochildren[j],
                forall|j: int|
                    0 <= j < i ==> keys48@[key_val(#[trigger] okeys[j])] == Option::Some(j as u8),
                forall|b: int|
                    0 <= b < 256 && (#[trigger] keys48@[b]) is Some ==> 0 <= key_val(keys48@[b]) < i
                        && okeys[key_val(keys48@[b])] == Option::Some(b as u8),
                forall|j: int| 0 <= j < i ==> children48@[j] == ochildren[j],
                forall|j: int| i <= j < 48 ==> (#[trigger] children48@[j]) is None,
                count_some(keys48@) == i,
            decreases count - i,
        {
            let kb: u8 = node.keys[i].unwrap();
            let ghost pre = node.children@;
            let slot = node.children.remove(i);
            node.children.insert(i, Option::None);
            proof {
                assert(node.children@ =~= pre.update(i as int, Option::None));
                assert(slot == pre[i as int]);
                assert(slot == ochildren[i as int]);
                assert forall|j2: int| 0 <= j2 < i implies key_val(#[trigger] okeys[j2])
                    != kb as int by {
                    assert(key_val(okeys[j2]) != key_val(okeys[i as int]));
                }
                assert(keys48@[kb as int] is None);
                lemma_count_some_update(keys48@, kb as int, Option::Some(i as u8));
            }
            keys48.set(kb as usize, Option::Some(i as u8));
            children48.set(i, slot);
            i = i + 1;
        }
        let r = Node48 { keys: keys48, children: children48, size: count, terminal: term };
        proof {
            assert forall|b1: int, b2: int|
                0 <= b1 < b2 < 256 && (#[trigger] r.keys@[b1]) is Some && (#[trigger]
                r.keys@[b2]) is Some implies key_val(r.keys@[b1]) != key_val(r.keys@[b2]) by {
                if key_val(r.keys@[b1]) == key_val(r.keys@[b2]) {
                    let j = key_val(r.keys@[b1]);
                    assert(okeys[j] == Option::Some(b1 as u8));
                    assert(okeys[j] == Option::Some(b2 as u8));
                    assert(false);
                }
            }
            assert forall|i2: int| 0 <= i2 < 48 implies wf_slot(#[trigger] r.children@[i2]) by {
                if i2 < osize {
                    assert(r.children@[i2] == ochildren[i2]);
                    assert(wf_slot(ochildren[i2]));
                } else {
                    assert(r.children@[i2] is None);
                }
            }
            assert(wf_children(r.children@));
            assert(r.keys@.len() == 256);
            assert(r.children@.len() == 48);
            assert(r.size <= 48);
            assert(forall|b2: int|
                0 <= b2 < 256 && (#[trigger] r.keys@[b2]) is Some ==> 0 <= key_val(r.keys@[b2])
                    < r.size);
            assert forall|i2: int| 0 <= i2 < r.size implies (#[trigger] r.children@[i2])
                is Some by {
                assert(r.children@[i2] == ochildren[i2]);
            }
            assert(forall|i2: int| r.size <= i2 < 48 ==> (#[trigger] r.children@[i2]) is None);
            assert(count_some(r.keys@) == r.size);
            assert(wf48(r));
            assert forall|x: u8|
                spec_child(ArtNode::N48(r), x) == spec_child(ArtNode::N16(onode), x) by {
                match r.keys@[x as int] {
                    Option::Some(ci) => {
                        lemma_keyed_some(okeys, ochildren, osize, x, ci as int);
                    },
                    Option::None => {
                        assert forall|j: int|
                            0 <= j < osize implies (#[trigger] okeys[j]) != Option::Some(x) by {
                            if okeys[j] == Option::Some(x) {
                                assert(keys48@[key_val(okeys[j])] == Option::Some(j as u8));
                            }
                        }
                        lemma_keyed_none(okeys, ochildren, osize, x);
                    },
                }
            }
        }
        r
    }

    /// Locates the branch for a byte by one table lookup.
    pub fn get_index(&self, value: u8) -> (r: NodeLocation)
        requires
            wf_node(ArtNode::N48(*self)),
        ensures
            match r {
                NodeLocation::Exists(idx) => {
                    &&& idx.key == value as usize
                    &&& self.keys@[value as int] is Some
                    &&& key_val(self.keys@[value as int]) == idx.child
                    &&& idx.child < self.size
                    &&& self.children@[idx.child as int] is Some
                    &&& spec_child(ArtNode::N48(*self), value) == slot_node(
                        self.children@[idx.child as int],
                    )
                },
                NodeLocation::Insert(idx) => {
                    &&& idx.key == value as usize
                    &&& idx.child == self.size
                    &&& self.size < 48
                    &&& self.keys@[value as int] is None
                    &&& spec_child(ArtNode::N48(*self), value) is None
                },
                NodeLocation::Upgrade => {
                    &&& self.size == 48
                    &&& self.keys@[value as int] is None
                    &&& spec_child(ArtNode::N48(*self), value) is None
                },
            },
    {
        let cur_value_index = value as usize;
        let k = self.keys[cur_value_index];
        if k.is_some() {
            let key_index = k.unwrap() as usize;
            NodeLocation::Exists(KeyChildIndex { key: cur_value_index, child: key_index })
        } else if self.size < 48 {
            NodeLocation::Insert(KeyChildIndex { key: cur_value_index, child: self.size })
        } else {
            NodeLocation::Upgrade
        }
    }

    /// Inserts the bytes `values[from..]` at this node; see `Node4::add`.
    pub fn add(self, values: &[u8], from: usize) -> (r: ArtNode)
        requires
            wf_node(ArtNode::N48(self)),
            from <= values@.len(),
        ensures
            wf_node(r),
            forall|s: Seq<u8>|
                has_term(r, s) == (has_term(ArtNode::N48(self), s) || s == values@.skip(
                    from as int,
                )),
            forall|s: Seq<u8>|
                has_path(r, s) == (has_path(ArtNode::N48(self), s) || is_prefix_of(
                    s,
                    values@.skip(from as int),
                )),
            from == values@.len() ==> (r matches ArtNode::N48(m) && m.keys@ == self.keys@
                && m.children@ == self.children@ && m.size == self.size && m.terminal),
            (from < values@.len() && self.size == 48 && spec_child(
                ArtNode::N48(self),
                values@[from as int],
            ) is None) ==> r is N256,
            (from < values@.len() && !(self.size == 48 && spec_child(
                ArtNode::N48(self),
                values@[from as int],
            ) is None)) ==> r is N48,
            spec_size(r) == self.size + (if from < values@.len() && spec_child(
                ArtNode::N48(self),
                values@[from as int],
            ) is None {
                1int
            } else {
                0int
            }),
            (from < values@.len() && spec_child(ArtNode::N48(self), values@[from as int]) is Some)
                ==> (r matches ArtNode::N48(m) && m.keys@ == self.keys@ && m.size == self.size
                && m.terminal == self.terminal && (forall|j: int|
                0 <= j < 48 && j != key_val(self.keys@[values@[from as int] as int])
                    ==> #[trigger] m.children@[j] == self.children@[j])),
            (from < values@.len() && self.size < 48 && spec_child(
                ArtNode::N48(self),
                values@[from as int],
            ) is None) ==> (r matches ArtNode::N48(m) && m.keys@ == self.keys@.update(
                values@[from as int] as int,
                Option::Some(self.size as u8),
            ) && m.size == self.size + 1 && m.terminal == self.terminal && (forall|j: int|
                0 <= j < 48 && j != self.size ==> #[trigger] m.children@[j]
                    == self.children@[j]) && m.children@[self.size as int] is Some),
        decreases values@.len() - from, 1int, 1int,
    {
        let mut this = self;
        if from == values.len() {
            let ghost a = ArtNode::N48(this);
            this.terminal = true;
            proof {
                assert(values@.skip(from as int) =~= Seq::<u8>::empty());
                lemma_terminal_set(a, ArtNode::N48(this));
            }
            ArtNode::N48(this)
        } else {
            let first = values[from];
            match this.get_index(first) {
                NodeLocation::Exists(index) => this.exists_add(index, values, from),
                NodeLocation::Insert(index) => this.insert_add(index, first, values, from),
                NodeLocation::Upgrade => this.upgrade_add(values, from),
            }
        }
    }

    /// The byte already has a branch: recurse into it and store the child
    /// back (it may have promoted itself).
    pub fn exists_add(self, index: KeyChildIndex, values: &[u8], from: usize) -> (r: ArtNode)
        requires
            wf_node(ArtNode::N48(self)),
            from < values@.len(),
            index.key == values@[from as int] as usize,
            self.keys@[index.key as int] is Some,
            key_val(self.keys@[index.key as int]) == index.child,
            index.child < self.size,
        ensures
            wf_node(r),
            forall|s: Seq<u8>|
                has_term(r, s) == (has_term(ArtNode::N48(self), s) || s == values@.skip(
                    from as int,
                )),
            forall|s: Seq<u8>|
                has_path(r, s) == (has_path(ArtNode::N48(self), s) || is_prefix_of(
                    s,
                    values@.skip(from as int),
                )),
            r matches ArtNode::N48(m) && m.keys@ == self.keys@ && m.size == self.size
                && m.terminal == self.terminal && (forall|j: int|
                0 <= j < 48 && j != index.child ==> #[trigger] m.children@[j]
                    == self.children@[j]) && m.children@[index.child as int] is Some,
        decreases values@.len() - from, 1int, 0int,
    {
        let mut this = self;
        let ghost a = ArtNode::N48(this);
        let ghost okeys = this.keys@;
        let ghost ochildren = this.children@;
        let ghost t = values@.skip(from as int);
        let first = values[from];
        let ci = index.child;
        let slot = this.children.remove(ci);
        let child: ArtNode = match slot {
            Option::Some(bx) => *bx,
            Option::None => ArtNode::N0(Node0::new()),
        };
        proof {
            assert(slot == ochildren[ci as int]);
            assert(wf_node(child));
        }
        let new_child = child.add(values, from + 1);
        this.children.insert(ci, Option::Some(Box::new(new_child)));
        proof {
            assert(this.children@ =~= ochildren.update(
                ci as int,
                Option::Some(Box::new(new_child)),
            ));
            let b = ArtNode::N48(this);
            assert forall|y: u8| y != first implies spec_child(b, y) == spec_child(a, y) by {
                match okeys[y as int] {
                    Option::Some(cy) => {
                        assert(key_val(okeys[y as int]) != key_val(okeys[first as int]));
                    },
                    Option::None => {},
                }
            }
            assert(t[0] == first);
            assert(t.skip(1) =~= values@.skip(from as int + 1));
            lemma_child_update(a, b, child, new_child, t);
        }
        ArtNode::N48(this)
    }

    /// The byte has no branch and there is room: record the next free slot in
    /// the table and place a fresh child built from the remaining bytes.
    pub fn insert_add(self, index: KeyChildIndex, first: u8, values: &[u8], from: usize) -> (r:
        ArtNode)
        requires
            wf_node(ArtNode::N48(self)),
            from < values@.len(),
            values@[from as int] == first,
            index.key == first as usize,
            index.child == self.size,
            self.size < 48,
            self.keys@[first as int] is None,
        ensures
            wf_node(r),
            forall|s: Seq<u8>|
                has_term(r, s) == (has_term(ArtNode::N48(self), s) || s == values@.skip(
                    from as int,
                )),
            forall|s: Seq<u8>|
                has_path(r, s) == (has_path(ArtNode::N48(self), s) || is_prefix_of(
                    s,
                    values@.skip(from as int),
                )),
            r matches ArtNode::N48(m) && m.keys@ == self.keys@.update(
                first as int,
                Option::Some(self.size as u8),
            ) && m.size == self.size + 1 && m.terminal == self.terminal && (forall|j: int|
                0 <= j < 48 && j != self.size ==> #[trigger] m.children@[j]
                    == self.children@[j]) && m.children@[self.size as int] is Some,
        decreases values@.len() - from, 1int, 0int,
    {
        let mut this = self;
        let ghost a = ArtNode::N48(this);
        let ghost okeys = this.keys@;
        let ghost ochildren = this.children@;
        let ghost osize = this.size as int;
        let ghost t = values@.skip(from as int);
        let n = values.len();
        proof {
            assert(from < n);
        }
        let base = Node0::new();
        let ghost gbase = base;
        let child = base.add(values, from + 1);
        proof {
            lemma_node0_model(gbase);
            assert forall|s: Seq<u8>|
                has_path(child, s) == is_prefix_of(s, values@.skip(from as int + 1)) by {
                if s.len() == 0 {
                    assert(s =~= values@.skip(from as int + 1).subrange(0, 0));
                }
            }
            lemma_prefix_empty(values@.skip(from as int + 1));
            assert(t[0] == first);
            assert(t.skip(1) =~= values@.skip(from as int + 1));
            lemma_count_some_update(okeys, first as int, Option::Some(this.size as u8));
        }
        this.keys.set(first as usize, Option::Some(this.size as u8));
        this.children.set(this.size, Option::Some(Box::new(child)));
        this.size = this.size + 1;
        proof {
            let b = ArtNode::N48(this);
            assert forall|y: u8| y != first implies spec_child(b, y) == spec_child(a, y) by {
                match okeys[y as int] {
                    Option::Some(cy) => {
                        assert(key_val(okeys[y as int]) < osize);
                    },
                    Option::None => {},
                }
            }
            lemma_child_insert(a, b, child, t);
        }
        ArtNode::N48(this)
    }

    /// The byte has no branch and the node is full: promote to a `Node256`
    /// and retry the insertion there.
    pub fn upgrade_add(self, values: &[u8], from: usize) -> (r: ArtNode)
        requires
            wf_node(ArtNode::N48(self)),
            from < values@.len(),
        ensures
            wf_node(r),
            forall|s: Seq<u8>|
                has_term(r, s) == (has_term(ArtNode::N48(self), s) || s == values@.skip(
                    from as int,
                )),
            forall|s: Seq<u8>|
                has_path(r, s) == (has_path(ArtNode::N48(self), s) || is_prefix_of(
                    s,
                    values@.skip(from as int),
                )),
            r is N256,
            spec_size(r) == self.size + (if spec_child(
                ArtNode::N48(self),
                values@[from as int],
            ) is None {
                1int
            } else {
                0int
            }),
        decreases values@.len() - from, 1int, 0int,
    {
        let ghost a = ArtNode::N48(self);
        let upgraded = Node256::from(self);
        proof {
            lemma_node_equiv(a, ArtNode::N256(upgraded));
        }
        upgraded.add(values, from)
    }
}

} // verus!
