use vstd::prelude::*;
use crate::trie::nodes::node::{
    empty_keys, empty_slots, has_path, has_term, is_prefix_of, key_val, lemma_child_insert,
    lemma_child_update, lemma_keyed_none, lemma_keyed_some, lemma_node0_model, lemma_node_equiv,
    lemma_prefix_empty, lemma_terminal_set, slot_node, spec_child, spec_child_keyed, spec_size,
    spec_terminal, wf_node, ArtNode, KeyChildIndex, NodeLocation, NodeSlot,
};
use crate::trie::nodes::node0::Node0;
use crate::trie::nodes::node16::Node16;

verus! {

broadcast use vstd::std_specs::vec::group_vec_axioms;

/// Up to four branches, located by a linear scan of an unsorted key array.
pub struct Node4 {
    pub keys: Vec<Option<u8>>,
    pub children: Vec<NodeSlot>,
    pub size: usize,
    pub terminal: bool,
}

impl Node4 {
    pub fn new() -> (r: Node4)
        ensures
            wf_node(ArtNode::N4(r)),
            !r.terminal,
            r.size == 0,
            forall|x: u8| spec_child(ArtNode::N4(r), x) is None,
    {
        let r = Node4 { keys: empty_keys(4), children: empty_slots(4), size: 0, terminal: false };
        proof {
            assert forall|x: u8| spec_child(ArtNode::N4(r), x) is None by {
                lemma_keyed_none(r.keys@, r.children@, 0, x);
            }
        }
        r
    }

    /// The promotion of a `Node0`: no branches yet, terminal flag carried over.
    pub fn from(node: Node0) -> (r: Node4)
        ensures
            wf_node(ArtNode::N4(r)),
            r.size == 0,
            spec_terminal(ArtNode::N4(r)) == spec_terminal(ArtNode::N0(node)),
            forall|x: u8|
                spec_child(ArtNode::N4(r), x) == spec_child(ArtNode::N0(node), x),
    {
        let r = Node4 {
            keys: empty_keys(4),
            children: empty_slots(4),
            size: 0,
            terminal: node.terminal,
        };
        proof {
            assert forall|x: u8|
                spec_child(ArtNode::N4(r), x) == spec_child(ArtNode::N0(node), x) by {
                lemma_keyed_none(r.keys@, r.children@, 0, x);
            }
        }
        r
    }

    /// Locates the branch for a byte by scanning the populated keys.
    pub fn get_index(&self, value: u8) -> (r: NodeLocation)
        requires
            wf_node(ArtNode::N4(*self)),
        ensures
            match r {
                NodeLocation::Exists(idx) => {
                    &&& idx.key == idx.child
                    &&& idx.child < self.size
                    &&& self.keys@[idx.key as int] == Option::Some(value)
                    &&& self.children@[idx.child as int] is Some
                    &&& spec_child(ArtNode::N4(*self), value) == slot_node(
                        self.children@[idx.child as int],
                    )
                },
                NodeLocation::Insert(idx) => {
                    &&& idx.key == idx.child
                    &&& idx.key == self.size
                    &&& self.size < 4
                    &&& spec_child(ArtNode::N4(*self), value) is None
                    &&& forall|i: int|
                        0 <= i < self.size ==> (#[trigger] self.keys@[i]) != Option::Some(value)
                },
                NodeLocation::Upgrade => {
                    &&& self.size == 4
                    &&& spec_child(ArtNode::N4(*self), value) is None
                },
            },
    {
        let mut i: usize = 0;
        while i < self.size
            invariant
                wf_node(ArtNode::N4(*self)),
                i <= self.size,
                forall|j: int| 0 <= j < i ==> (#[trigger] self.keys@[j]) != Option::Some(value),
            decreases self.size - i,
        {
            let k = self.keys[i];
            if k.is_some() && k.unwrap() == value {
                proof {
                    lemma_keyed_some(
                        self.keys@,
                        self.children@,
                        self.size as int,
                        value,
                        i as int,
                    );
                }
                return NodeLocation::Exists(KeyChildIndex { key: i, child: i });
            }
            i = i + 1;
        }
        proof {
            lemma_keyed_none(self.keys@, self.children@, self.size as int, value);
        }
        if self.size < 4 {
            NodeLocation::Insert(KeyChildIndex { key: self.size, child: self.size })
        } else {
            NodeLocation::Upgrade
        }
    }

    /// Inserts the bytes `values[from..]` at this node: an empty remainder
    /// marks the node terminal; otherwise the first byte's branch is found or
    /// created and the rest recurses there, promoting when the node is full.
    pub fn add(self, values: &[u8], from: usize) -> (r: ArtNode)
        requires
            wf_node(ArtNode::N4(self)),
            from <= values@.len(),
        ensures
            wf_node(r),
            forall|s: Seq<u8>|
                has_term(r, s) == (has_term(ArtNode::N4(self), s) || s == values@.skip(from as int)),
            forall|s: Seq<u8>|
                has_path(r, s) == (has_path(ArtNode::N4(self), s) || is_prefix_of(
                    s,
                    values@.skip(from as int),
                )),
            from == values@.len() ==> (r matches ArtNode::N4(m) && m.keys@ == self.keys@
                && m.children@ == self.children@ && m.size == self.size && m.terminal),
            (from < values@.len() && self.size == 4 && spec_child(
                ArtNode::N4(self),
                values@[from as int],
            ) is None) ==> r is N16,
            (from < values@.len() && !(self.size == 4 && spec_child(
                ArtNode::N4(self),
                values@[from as int],
            ) is None)) ==> r is N4,
            spec_size(r) == self.size + (if from < values@.len() && spec_child(
                ArtNode::N4(self),
                values@[from as int],
            ) is None {
                1int
            } else {
                0int
            }),
            (from < values@.len() && spec_child(ArtNode::N4(self), values@[from as int]) is Some)
                ==> (r matches ArtNode::N4(m) && m.keys@ == self.keys@ && m.size == self.size
                && m.terminal == self.terminal && (forall|j: int|
                0 <= j < 4 && self.keys@[j] != Option::Some(values@[from as int])
                    ==> #[trigger] m.children@[j] == self.children@[j])),
            (from < values@.len() && self.size < 4 && spec_child(
                ArtNode::N4(self),
                values@[from as int],
            ) is None) ==> (r matches ArtNode::N4(m) && m.keys@ == self.keys@.update(
                self.size as int,
                Option::Some(values@[from as int]),
            ) && m.size == self.size + 1 && m.terminal == self.terminal && (forall|j: int|
                0 <= j < 4 && j != self.size ==> #[trigger] m.children@[j]
                    == self.children@[j]) && m.children@[self.size as int] is Some),
        decreases values@.len() - from, 3int, 1int,
    {
        let mut this = self;
        if from == values.len() {
            let ghost a = ArtNode::N4(this);
            this.terminal = true;
            proof {
                assert(values@.skip(from as int) =~= Seq::<u8>::empty());
                lemma_terminal_set(a, ArtNode::N4(this));
            }
            ArtNode::N4(this)
        } else {
            let first = values[from];
            match this.get_index(first) {
                NodeLocation::Exists(index) => this.exists_add(index, values, from),
                NodeLocation::Insert(index) => this.insert_add(index, first, values, from),
                NodeLocation::Upgrade => this.upgrade_add(values, from),
            }
        }
    }

    /// The byte already has a branch: recurse into it and store the child
    /// back (it may have promoted itself).
    pub fn exists_add(self, index: KeyChildIndex, values: &[u8], from: usize) -> (r: ArtNode)
        requires
            wf_node(ArtNode::N4(self)),
            from < values@.len(),
            index.key == index.child,
            index.child < self.size,
            self.keys@[index.key as int] == Option::Some(values@[from as int]),
        ensures
            wf_node(r),
            forall|s: Seq<u8>|
                has_term(r, s) == (has_term(ArtNode::N4(self), s) || s == values@.skip(from as int)),
            forall|s: Seq<u8>|
                has_path(r, s) == (has_path(ArtNode::N4(self), s) || is_prefix_of(
                    s,
                    values@.skip(from as int),
                )),
            r matches ArtNode::N4(m) && m.keys@ == self.keys@ && m.size == self.size
                && m.terminal == self.terminal && (forall|j: int|
                0 <= j < 4 && j != index.child ==> #[trigger] m.children@[j]
                    == self.children@[j]) && m.children@[index.child as int] is Some,
        decreases values@.len() - from, 3int, 0int,
    {
        let mut this = self;
        let ghost a = ArtNode::N4(this);
        let ghost okeys = this.keys@;
        let ghost ochildren = this.children@;
        let ghost osize = this.size as int;
        let ghost t = values@.skip(from as int);
        let first = values[from];
        let ci = index.child;
        let slot = this.children.remove(ci);
        let child: ArtNode = match slot {
            Option::Some(bx) => *bx,
            Option::None => ArtNode::N0(Node0::new()),
        };
        proof {
            assert(slot == ochildren[ci as int]);
            assert(wf_node(child));
        }
        let new_child = child.add(values, from + 1);
        this.children.insert(ci, Option::Some(Box::new(new_child)));
        proof {
            assert(this.children@ =~= ochildren.update(
                ci as int,
                Option::Some(Box::new(new_child)),
            ));
            let b = ArtNode::N4(this);
            assert forall|y: u8| y != first implies spec_child(b, y) == spec_child(a, y) by {
                if exists|i: int| 0 <= i < osize && okeys[i] == Option::Some(y) {
                    let i = choose|i: int| 0 <= i < osize && okeys[i] == Option::Some(y);
                    lemma_keyed_some(okeys, ochildren, osize, y, i);
                    lemma_keyed_some(okeys, this.children@, osize, y, i);
                } else {
                    lemma_keyed_none(okeys, ochildren, osize, y);
                    lemma_keyed_none(okeys, this.children@, osize, y);
                }
            }
            lemma_keyed_some(okeys, ochildren, osize, first, ci as int);
            lemma_keyed_some(okeys, this.children@, osize, first, ci as int);
            assert(t[0] == first);
            assert(t.skip(1) =~= values@.skip(from as int + 1));
            lemma_child_update(a, b, child, new_child, t);
        }
        ArtNode::N4(this)
    }

    /// The byte has no branch and there is room: append the key and a fresh
    /// child built from the remaining bytes.
    pub fn insert_add(self, index: KeyChildIndex, first: u8, values: &[u8], from: usize) -> (r:
        ArtNode)
        requires
            wf_node(ArtNode::N4(self)),
            from < values@.len(),
            values@[from as int] == first,
            index.key == index.child,
            index.key == self.size,
            self.size < 4,
            forall|i: int| 0 <= i < self.size ==> (#[trigger] self.keys@[i]) != Option::Some(first),
        ensures
            wf_node(r),
            forall|s: Seq<u8>|
                has_term(r, s) == (has_term(ArtNode::N4(self), s) || s == values@.skip(from as int)),
            forall|s: Seq<u8>|
                has_path(r, s) == (has_path(ArtNode::N4(self), s) || is_prefix_of(
                    s,
                    values@.skip(from as int),
                )),
            r matches ArtNode::N4(m) && m.keys@ == self.keys@.update(
                self.size as int,
                Option::Some(first),
            ) && m.size == self.size + 1 && m.terminal == self.terminal && (forall|j: int|
                0 <= j < 4 && j != self.size ==> #[trigger] m.children@[j]
                    == self.children@[j]) && m.children@[self.size as int] is Some,
        decreases values@.len() - from, 3int, 0int,
    {
        let mut this = self;
        let ghost a = ArtNode::N4(this);
        let ghost okeys = this.keys@;
        let ghost ochildren = this.children@;
        let ghost osize = this.size as int;
        let ghost t = values@.skip(from as int);
        let n = values.len();
        proof {
            assert(from < n);
        }
        let base = Node0::new();
        let ghost gbase = base;
        let child = base.add(values, from + 1);
        proof {
            lemma_node0_model(gbase);
            assert forall|s: Seq<u8>|
                has_path(child, s) == is_prefix_of(s, values@.skip(from as int + 1)) by {
                if s.len() == 0 {
                    assert(s =~= values@.skip(from as int + 1).subrange(0, 0));
                }
            }
            lemma_prefix_empty(values@.skip(from as int + 1));
            assert(t[0] == first);
            assert(t.skip(1) =~= values@.skip(from as int + 1));
            lemma_keyed_none(okeys, ochildren, osize, first);
        }
        this.keys.set(this.size, Option::Some(first));
        this.children.set(this.size, Option::Some(Box::new(child)));
        this.size = this.size + 1;
        proof {
            let b = ArtNode::N4(this);
            assert forall|y: u8| y != first implies spec_child(b, y) == spec_child(a, y) by {
                if exists|i: int| 0 <= i < osize && okeys[i] == Option::Some(y) {
                    let i = choose|i: int| 0 <= i < osize && okeys[i] == Option::Some(y);
                    lemma_keyed_some(okeys, ochildren, osize, y, i);
                    lemma_keyed_some(this.keys@, this.children@, osize + 1, y, i);
                } else {
                    lemma_keyed_none(okeys, ochildren, osize, y);
                    lemma_keyed_none(this.keys@, this.children@, osize + 1, y);
                }
            }
            lemma_keyed_some(this.keys@, this.children@, osize + 1, first, osize);
            lemma_child_insert(a, b, child, t);
        }
        ArtNode::N4(this)
    }

    /// The byte has no branch and the node is full: promote to a `Node16`
    /// and retry the insertion there.
    pub fn upgrade_add(self, values: &[u8], from: usize) -> (r: ArtNode)
        requires
            wf_node(ArtNode::N4(self)),
            from < values@.len(),
        ensures
            wf_node(r),
            forall|s: Seq<u8>|
                has_term(r, s) == (has_term(ArtNode::N4(self), s) || s == values@.skip(from as int)),
            forall|s: Seq<u8>|
                has_path(r, s) == (has_path(ArtNode::N4(self), s) || is_prefix_of(
                    s,
                    values@.skip(from as int),
                )),
            r is N16,
            spec_size(r) == self.size + (if spec_child(
                ArtNode::N4(self),
                values@[from as int],
            ) is None {
                1int
            } else {
                0int
            }),
        decreases values@.len() - from, 3int, 0int,
    {
        let ghost a = ArtNode::N4(self);
        let upgraded = Node16::from(self);
        proof {
            lemma_node_equiv(a, ArtNode::N16(upgraded));
        }
        upgraded.add(values, from)
    }
}

} // verus!
