use vstd::prelude::*;
use crate::trie::nodes::node::{
    has_path, has_term, is_prefix_of, lemma_node_equiv, lemma_terminal_set, spec_child,
    spec_size, spec_terminal, wf_node, ArtNode,
};
use crate::trie::nodes::node4::Node4;

verus! {

/// A leaf-capacity node: it can mark a key's end but hold no branch.
pub struct Node0 {
    pub terminal: bool,
}

impl Node0 {
    pub fn new() -> (r: Node0)
        ensures
            !r.terminal,
    {
        Node0 { terminal: false }
    }

    /// Inserts the bytes `values[from..]` at this node. An empty remainder
    /// only marks the node terminal and keeps the representation; any branch
    /// forces promotion to a `Node4` holding exactly one branch.
    pub fn add(self, values: &[u8], from: usize) -> (r: ArtNode)
        requires
            from <= values@.len(),
        ensures
            wf_node(r),
            forall|s: Seq<u8>|
                has_term(r, s) == (has_term(ArtNode::N0(self), s) || s == values@.skip(from as int)),
            forall|s: Seq<u8>|
                has_path(r, s) == (has_path(ArtNode::N0(self), s) || is_prefix_of(
                    s,
                    values@.skip(from as int),
                )),
            from == values@.len() ==> (r matches ArtNode::N0(m) && m.terminal),
            from < values@.len() ==> r is N4,
            spec_size(r) == (if from < values@.len() {
                1int
            } else {
                0int
            }),
        decreases values@.len() - from, 4int, 1int,
    {
        if from == values.len() {
            let r = Node0 { terminal: true };
            proof {
                assert(values@.skip(from as int) =~= Seq::<u8>::empty());
                lemma_terminal_set(ArtNode::N0(self), ArtNode::N0(r));
            }
            ArtNode::N0(r)
        } else {
            self.upgrade_add(values, from)
        }
    }

    /// Promotes to a `Node4` carrying the terminal flag over, then retries
    /// the insertion there; the result is that `Node4` with its one branch.
    pub fn upgrade_add(self, values: &[u8], from: usize) -> (r: ArtNode)
        requires
            from < values@.len(),
        ensures
            wf_node(r),
            forall|s: Seq<u8>|
                has_term(r, s) == (has_term(ArtNode::N0(self), s) || s == values@.skip(from as int)),
            forall|s: Seq<u8>|
                has_path(r, s) == (has_path(ArtNode::N0(self), s) || is_prefix_of(
                    s,
                    values@.skip(from as int),
                )),
            r is N4,
            spec_size(r) == 1,
        decreases values@.len() - from, 4int, 0int,
    {
        let ghost a = ArtNode::N0(self);
        let new_node = Node4::from(self);
        proof {
            lemma_node_equiv(a, ArtNode::N4(new_node));
        }
        new_node.add(values, from)
    }
}

} // verus!
