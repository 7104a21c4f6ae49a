//! A later pass over the fixed-width iteration of the index: the same
//! 257-slot node shape and three-mode insertion, with the node's own lookup
//! reshaped ahead of the adaptive representations that followed.

use vstd::prelude::*;
use vstd::string::StrSliceExecFns;

verus! {

broadcast use vstd::std_specs::vec::group_vec_axioms;

/// How a query is matched against the inserted values.
pub enum Match {
    Exact,
    Prefix,
    PrefixPostfix,
}

/// Whether ASCII upper-case characters are lowered before indexing.
pub enum Case {
    Sensitive,
    Insensitive,
}

pub type Link = Option<Box<Node>>;

/// The node held by a link, if any.
pub open spec fn link_node(l: Link) -> Option<Node> {
    match l {
        Option::Some(b) => Option::Some(*b),
        Option::None => Option::None,
    }
}

/// One trie level: 257 child slots, indexed by character code, with the
/// last slot marking the end of an exactly inserted value.
pub struct Node {
    pub children: Vec<Link>,
}

/// The index a character maps to, for characters with a code below 257.
pub open spec fn char_id(c: char) -> int {
    c as int
}

/// Every character of the sequence has a child index.
pub open spec fn all_mapped(v: Seq<char>) -> bool {
    forall|i: int| 0 <= i < v.len() ==> char_id(#[trigger] v[i]) < 257
}

/// The child indices of a character sequence, unmappable characters skipped.
pub open spec fn mapped_ids(v: Seq<char>) -> Seq<u16>
    decreases v.len(),
{
    if v.len() <= 0 {
        Seq::empty()
    } else {
        let rest = mapped_ids(v.drop_last());
        if char_id(v.last()) < 257 {
            rest.push(v.last() as u16)
        } else {
            rest
        }
    }
}

/// ASCII lower-casing of one child index.
pub open spec fn lower_id(id: u16) -> u16 {
    if 65 <= id <= 90 {
        (id + 32) as u16
    } else {
        id
    }
}

/// The indices actually used for a value under the case policy.
pub open spec fn fold_ids(c: Case, ids: Seq<u16>) -> Seq<u16> {
    match c {
        Case::Sensitive => ids,
        Case::Insensitive => ids.map_values(|id: u16| lower_id(id)),
    }
}

/// `p` is an initial segment of `s`.
pub open spec fn is_ids_prefix(p: Seq<u16>, s: Seq<u16>) -> bool {
    p.len() <= s.len() && p == s.subrange(0, p.len() as int)
}

/// Whether the index path `s` can be walked from `n`.
pub open spec fn node_has(n: Node, s: Seq<u16>) -> bool
    decreases s.len(),
{
    if s.len() <= 0 {
        true
    } else if 0 <= s[0] < 257 && n.children@.len() == 257 {
        match n.children@[s[0] as int] {
            Option::Some(c) => node_has(*c, s.skip(1)),
            Option::None => false,
        }
    } else {
        false
    }
}

/// Every node has its full width, recursively.
pub open spec fn wf_node(n: Node) -> bool
    decreases n,
{
    &&& n.children@.len() == 257
    &&& forall|i: int| 0 <= i < 257 ==> wf_link(#[trigger] n.children@[i])
}

pub open spec fn wf_link(l: Link) -> bool
    decreases l,
{
    match l {
        Option::None => true,
        Option::Some(b) => wf_node(*b),
    }
}

/// The index paths one insertion creates: under `Exact` the value's indices
/// followed by the end marker; under `Prefix` the indices alone; under
/// `PrefixPostfix` every suffix of the indices.
pub open spec fn added_by(m: Match, ids: Seq<u16>, s: Seq<u16>) -> bool {
    match m {
        Match::Exact => is_ids_prefix(s, ids.push(256)),
        Match::Prefix => is_ids_prefix(s, ids),
        Match::PrefixPostfix => exists|j: int|
            0 <= j < ids.len() && is_ids_prefix(s, #[trigger] ids.skip(j)),
    }
}

/// The index: a match mode and case policy fixed at construction, and the
/// root node of the path trie.
pub struct Trie {
    matching: Match,
    case: Case,
    pub index: Node,
}

impl Node {
    /// The index a character maps to: its code, when below 257.
    pub fn char_to_usize(c: char) -> (r: Option<usize>)
        ensures
            char_id(c) < 257 ==> r == Option::Some(char_id(c) as usize),
            char_id(c) >= 257 ==> r is None,
    {
        let code: u32 = c as u32;
        if code < 257 {
            Option::Some(code as usize)
        } else {
            Option::None
        }
    }

    fn new() -> (r: Node)
        ensures
            wf_node(r),
            forall|s: Seq<u16>| node_has(r, s) == (s.len() == 0),
    {
        let mut children: Vec<Link> = Vec::new();
        let mut i: usize = 0;
        while i < 257
            invariant
                i <= 257,
                children@.len() == i,
                forall|j: int| 0 <= j < i ==> (#[trigger] children@[j]) is None,
            decreases 257 - i,
        {
            children.push(Option::None);
            i = i + 1;
        }
        let r = Node { children };
        proof {
            assert forall|s: Seq<u16>| node_has(r, s) == (s.len() == 0) by {
                if s.len() > 0 && 0 <= s[0] < 257 {
                    assert(r.children@[s[0] as int] is None);
                }
            }
        }
        r
    }

    /// Walks the indices `ids[from..]` into the trie, creating each missing
    /// node along the way: the path and its prefixes become present, and
    /// every path already present stays.
    pub fn add(&mut self, ids: &Vec<u16>, from: usize)
        requires
            wf_node(*old(self)),
            from <= ids@.len(),
            forall|i: int| 0 <= i < ids@.len() ==> (#[trigger] ids@[i]) < 257,
        ensures
            wf_node(*final(self)),
            forall|s: Seq<u16>|
                node_has(*final(self), s) == (node_has(*old(self), s) || is_ids_prefix(
                    s,
                    ids@.skip(from as int),
                )),
        decreases ids@.len() - from,
    {
        let ghost t = ids@.skip(from as int);
        if from == ids.len() {
            proof {
                assert forall|s: Seq<u16>|
                    node_has(*self, s) == (node_has(*self, s) || is_ids_prefix(s, t)) by {
                    if is_ids_prefix(s, t) {
                        assert(s.len() == 0);
                    }
                }
            }
            return ;
        }
        let b = ids[from] as usize;
        let ghost a = *self;
        let ghost ochildren = self.children@;
        let slot = self.children.remove(b);
        let mut child: Node = match slot {
            Option::Some(bx) => *bx,
            Option::None => Node::new(),
        };
        let ghost c0 = child;
        child.add(ids, from + 1);
        self.children.insert(b, Option::Some(Box::new(child)));
        proof {
            assert(self.children@ =~= ochildren.update(b as int, Option::Some(Box::new(child))));
            assert(t[0] == ids@[from as int]);
            assert(t.skip(1) =~= ids@.skip(from as int + 1));
            lemma_ids_head_tail_prefix(t);
            assert forall|s: Seq<u16>|
                node_has(*self, s) == (node_has(a, s) || is_ids_prefix(s, t)) by {
                if s.len() == 0 {
                } else if s[0] == t[0] {
                    assert(node_has(*self, s) == node_has(child, s.skip(1)));
                    match ochildren[b as int] {
                        Option::Some(bx) => {
                            assert(node_has(a, s) == node_has(*bx, s.skip(1)));
                            assert(node_has(child, s.skip(1)) == (node_has(c0, s.skip(1))
                                || is_ids_prefix(s.skip(1), t.skip(1))));
                        },
                        Option::None => {
                            assert(!node_has(a, s));
                            assert(node_has(c0, s.skip(1)) == (s.skip(1).len() == 0));
                            if s.skip(1).len() == 0 {
                                assert(is_ids_prefix(s.skip(1), t.skip(1))) by {
                                    assert(s.skip(1) =~= t.skip(1).subrange(0, 0));
                                }
                            }
                        },
                    }
                } else {
                    if 0 <= s[0] < 257 {
                        assert(self.children@[s[0] as int] == ochildren[s[0] as int]);
                    }
                    assert(!is_ids_prefix(s, t));
                }
            }
        }
    }

    /// Borrows the child a character maps to, if the character has an index
    /// and the branch is present.
    pub fn lookup(&self, c: char) -> (r: Option<&Node>)
        requires
            wf_node(*self),
        ensures
            match r {
                Option::Some(n) => {
                    &&& char_id(c) < 257
                    &&& link_node(self.children@[char_id(c)]) == Option::Some(*n)
                    &&& wf_node(*n)
                },
                Option::None => char_id(c) >= 257 || self.children@[char_id(c)] is None,
            },
    {
        match Node::char_to_usize(c) {
            Option::Some(i) => match &self.children[i] {
                Option::Some(bx) => Option::Some(&**bx),
                Option::None => Option::None,
            },
            Option::None => Option::None,
        }
    }

    /// Walks the indices `ids[from..]` without mutating, and reports whether
    /// the whole path is present.
    fn has_ids(&self, ids: &Vec<u16>, from: usize) -> (r: bool)
        requires
            wf_node(*self),
            from <= ids@.len(),
            forall|i: int| 0 <= i < ids@.len() ==> (#[trigger] ids@[i]) < 257,
        ensures
            r == node_has(*self, ids@.skip(from as int)),
        decreases ids@.len() - from,
    {
        proof {
            if from < ids@.len() {
                assert(ids@.skip(from as int)[0] == ids@[from as int]);
                assert(ids@.skip(from as int).skip(1) =~= ids@.skip(from as int + 1));
            } else {
                assert(ids@.skip(from as int) =~= Seq::<u16>::empty());
            }
        }
        if from == ids.len() {
            true
        } else {
            let b = ids[from] as usize;
            match &self.children[b] {
                Option::Some(bx) => bx.has_ids(ids, from + 1),
                Option::None => false,
            }
        }
    }
}

/// Equal nonempty index sequences split into equal heads and tails; used to
/// unfold prefix claims one index at a time.
proof fn lemma_ids_head_tail_prefix(t: Seq<u16>)
    requires
        t.len() > 0,
    ensures
        forall|s: Seq<u16>|
            #[trigger] is_ids_prefix(s, t) <==> (s.len() == 0 || (s.len() > 0 && s[0] == t[0]
                && is_ids_prefix(s.skip(1), t.skip(1)))),
{
    assert forall|s: Seq<u16>|
        #[trigger] is_ids_prefix(s, t) <==> (s.len() == 0 || (s.len() > 0 && s[0] == t[0]
            && is_ids_prefix(s.skip(1), t.skip(1)))) by {
        if s.len() == 0 {
            assert(s =~= t.subrange(0, 0));
        } else {
            if is_ids_prefix(s, t) {
                assert(s[0] == t.subrange(0, s.len() as int)[0]);
                assert forall|i: int| 0 <= i < s.skip(1).len() implies s.skip(1)[i] == t.skip(
                    1,
                ).subrange(0, s.len() - 1)[i] by {
                    assert(s.skip(1)[i] == s[i + 1]);
                    assert(t.skip(1).subrange(0, s.len() - 1)[i] == t[i + 1]);
                    assert(s[i + 1] == t.subrange(0, s.len() as int)[i + 1]);
                }
                assert(s.skip(1) =~= t.skip(1).subrange(0, s.skip(1).len() as int));
            }
            if s.len() > 0 && s[0] == t[0] && is_ids_prefix(s.skip(1), t.skip(1)) {
                assert forall|i: int| 0 <= i < s.len() implies s[i] == t.subrange(
                    0,
                    s.len() as int,
                )[i] by {
                    if i > 0 {
                        assert(s.skip(1)[i - 1] == t.skip(1).subrange(0, s.len() - 1)[i - 1]);
                        assert(s.skip(1)[i - 1] == s[i]);
                        assert(t.skip(1).subrange(0, s.len() - 1)[i - 1] == t[i]);
                    }
                }
                assert(s =~= t.subrange(0, s.len() as int));
            }
        }
    }
}

/// The child indices of a value's characters, folded per the case policy,
/// or nothing if some character of the value has no index.
fn map_value_ids(case: &Case, value: &str) -> (r: Option<Vec<u16>>)
    ensures
        match r {
            Option::Some(ids) => all_mapped(value@) && ids@ == fold_ids(
                *case,
                mapped_ids(value@),
            ) && (forall|i: int| 0 <= i < ids@.len() ==> (#[trigger] ids@[i]) < 257),
            Option::None => !all_mapped(value@),
        },
{
    let n = value.unicode_len();
    let mut ids: Vec<u16> = Vec::new();
    let mut i: usize = 0;
    while i < n
        invariant
            i <= n,
            n == value@.len(),
            forall|j: int| 0 <= j < i ==> char_id(#[trigger] value@[j]) < 257,
            forall|j: int| 0 <= j < ids@.len() ==> (#[trigger] ids@[j]) < 257,
            ids@ == fold_ids(*case, mapped_ids(value@.take(i as int))),
        decreases n - i,
    {
        let c = value.get_char(i);
        let code: u32 = c as u32;
        if code >= 257 {
            return Option::None;
        }
        let id: u16 = code as u16;
        let folded: u16 = match case {
            Case::Sensitive => id,
            Case::Insensitive => if id >= 65 && id <= 90 {
                id + 32
            } else {
                id
            },
        };
        ids.push(folded);
        proof {
            assert(value@.take(i + 1).drop_last() =~= value@.take(i as int));
            assert(value@.take(i + 1).last() == value@[i as int]);
            assert(mapped_ids(value@.take(i + 1)) =~= mapped_ids(value@.take(i as int)).push(
                id,
            ));
            assert(fold_ids(*case, mapped_ids(value@.take(i + 1))) =~= fold_ids(
                *case,
                mapped_ids(value@.take(i as int)),
            ).push(folded));
        }
        i = i + 1;
    }
    proof {
        assert(value@.take(n as int) =~= value@);
    }
    Option::Some(ids)
}

impl Trie {
    /// The match mode the trie was built with.
    pub closed spec fn mode(self) -> Match {
        self.matching
    }

    /// The case policy the trie was built with.
    pub closed spec fn policy(self) -> Case {
        self.case
    }

    /// The trie's structure is intact.
    pub closed spec fn wf(self) -> bool {
        wf_node(self.index)
    }

    /// Whether the index path `s` is present.
    pub closed spec fn has(self, s: Seq<u16>) -> bool {
        node_has(self.index, s)
    }

    /// An empty index with the given match mode and case policy.
    pub fn new(matching: Match, case: Case) -> (t: Trie)
        ensures
            t.wf(),
            t.mode() == matching,
            t.policy() == case,
            forall|s: Seq<u16>| t.has(s) == (s.len() == 0),
    {
        Trie { matching, case, index: Node::new() }
    }

    /// Inserts a value: a no-op when the value is empty; otherwise the paths
    /// given by the match mode — the value's character indices, unmappable
    /// characters skipped — become present, and every present path stays.
    pub fn add(&mut self, value: &String)
        requires
            old(self).wf(),
        ensures
            final(self).wf(),
            final(self).mode() == old(self).mode(),
            final(self).policy() == old(self).policy(),
            value@.len() == 0 ==> forall|s: Seq<u16>| final(self).has(s) == old(self).has(s),
            value@.len() > 0 ==> forall|s: Seq<u16>|
                final(self).has(s) == (old(self).has(s) || added_by(
                    old(self).mode(),
                    mapped_ids(value@),
                    s,
                )),
    {
        if value.as_str().unicode_len() == 0 {
            return ;
        }
        let mut ids = map_ids_unfolded(value.as_str());
        match &self.matching {
            Match::Exact => {
                ids.push(256);
                proof {
                    assert(ids@ =~= mapped_ids(value@).push(256));
                    assert(ids@.skip(0) =~= ids@);
                }
                self.index.add(&ids, 0);
            },
            Match::Prefix => {
                proof {
                    assert(ids@.skip(0) =~= ids@);
                }
                self.index.add(&ids, 0);
            },
            Match::PrefixPostfix => {
                let ghost qs = ids@;
                let ghost i0 = self.index;
                let ghost omode = self.matching;
                let ghost ocase = self.case;
                let mut j: usize = 0;
                while j < ids.len()
                    invariant
                        self.matching == omode,
                        self.case == ocase,
                        wf_node(self.index),
                        j <= qs.len(),
                        ids@ == qs,
                        forall|i: int| 0 <= i < qs.len() ==> (#[trigger] qs[i]) < 257,
                        forall|s: Seq<u16>|
                            #[trigger] node_has(self.index, s) == (node_has(i0, s) || exists|j2: int|
                                0 <= j2 < j && is_ids_prefix(s, #[trigger] qs.skip(j2))),
                    decreases qs.len() - j,
                {
                    let ghost prev = self.index;
                    self.index.add(&ids, j);
                    proof {
                        assert forall|s: Seq<u16>|
                            #[trigger] node_has(self.index, s) == (node_has(i0, s) || exists|j2: int|
                                0 <= j2 < j + 1 && is_ids_prefix(s, #[trigger] qs.skip(j2))) by {
                            if node_has(self.index, s) {
                                if node_has(prev, s) {
                                    if !node_has(i0, s) {
                                        let j0 = choose|j2: int|
                                            0 <= j2 < j && is_ids_prefix(
                                                s,
                                                #[trigger] qs.skip(j2),
                                            );
                                        assert(0 <= j0 < j + 1 && is_ids_prefix(s, qs.skip(j0)));
                                    }
                                } else {
                                    assert(0 <= j < j + 1 && is_ids_prefix(
                                        s,
                                        qs.skip(j as int),
                                    ));
                                }
                            } else {
                                if exists|j2: int|
                                    0 <= j2 < j + 1 && is_ids_prefix(s, #[trigger] qs.skip(j2)) {
                                    let j0 = choose|j2: int|
                                        0 <= j2 < j + 1 && is_ids_prefix(
                                            s,
                                            #[trigger] qs.skip(j2),
                                        );
                                    if j0 < j {
                                        assert(node_has(prev, s));
                                    }
                                    assert(false);
                                }
                            }
                        }
                    }
                    j = j + 1;
                }
            },
        }
    }

    /// Whether a value matches: its characters are folded per the case
    /// policy; every one of them must have an index, the walk over those
    /// indices must succeed, and under `Exact` the end marker must follow.
    pub fn contains(&self, value: &String) -> (r: bool)
        requires
            self.wf(),
        ensures
            r == (all_mapped(value@) && match self.mode() {
                Match::Exact => self.has(
                    fold_ids(self.policy(), mapped_ids(value@)).push(256),
                ),
                Match::Prefix => self.has(fold_ids(self.policy(), mapped_ids(value@))),
                Match::PrefixPostfix => self.has(fold_ids(self.policy(), mapped_ids(value@))),
            }),
    {
        let ids_opt = map_value_ids(&self.case, value.as_str());
        match ids_opt {
            Option::None => false,
            Option::Some(mut ids) => {
                match &self.matching {
                    Match::Exact => {
                        ids.push(256);
                        proof {
                            assert(ids@.skip(0) =~= ids@);
                        }
                        self.index.has_ids(&ids, 0)
                    },
                    _ => {
                        proof {
                            assert(ids@.skip(0) =~= ids@);
                        }
                        self.index.has_ids(&ids, 0)
                    },
                }
            },
        }
    }
}

/// The child indices of a value's characters without case folding,
/// unmappable characters skipped — insertion never folds.
fn map_ids_unfolded(value: &str) -> (r: Vec<u16>)
    ensures
        r@ == mapped_ids(value@),
        forall|i: int| 0 <= i < r@.len() ==> (#[trigger] r@[i]) < 257,
{
    let n = value.unicode_len();
    let mut ids: Vec<u16> = Vec::new();
    let mut i: usize = 0;
    while i < n
        invariant
            i <= n,
            n == value@.len(),
            ids@ == mapped_ids(value@.take(i as int)),
            forall|j: int| 0 <= j < ids@.len() ==> (#[trigger] ids@[j]) < 257,
        decreases n - i,
    {
        let c = value.get_char(i);
        let code: u32 = c as u32;
        proof {
            assert(value@.take(i + 1).drop_last() =~= value@.take(i as int));
            assert(value@.take(i + 1).last() == value@[i as int]);
        }
        if code < 257 {
            ids.push(code as u16);
        }
        i = i + 1;
    }
    proof {
        assert(value@.take(n as int) =~= value@);
    }
    ids
}

} // verus!
