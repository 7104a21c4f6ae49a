//! The first iteration of the index: every node holds 27 child slots, one
//! per lower-case ASCII letter plus an end marker that this iteration never
//! reaches. Insertion follows the letters of a value and stops at the first
//! byte that is no lower-case letter; lookup lowers the query first and
//! demands that every byte be a letter.

use vstd::prelude::*;
use vstd::string::StringSliceAdditionalSpecFns;
use crate::trie::nodes::node::is_prefix_of;
use crate::trie::tree::lower_byte;

verus! {

broadcast use vstd::std_specs::vec::group_vec_axioms;

pub type Link = Option<Box<Trie>>;

/// Whether a byte is a lower-case ASCII letter, the only bytes this
/// iteration can index.
pub open spec fn mappable(b: u8) -> bool {
    97 <= b < 123
}

/// Every byte of the sequence is a lower-case letter.
pub open spec fn all_letters(s: Seq<u8>) -> bool {
    forall|i: int| 0 <= i < s.len() ==> mappable(#[trigger] s[i])
}

/// The child indices of a byte sequence's longest indexable prefix: letters
/// map to `0 .. 26`, and the first byte that is no letter ends the path.
pub open spec fn path_of(s: Seq<u8>) -> Seq<u8>
    decreases s.len(),
{
    if s.len() <= 0 || !mappable(s[0]) {
        Seq::empty()
    } else {
        seq![(s[0] - 97) as u8] + path_of(s.skip(1))
    }
}

/// The whole sequence lowered, byte by byte.
pub open spec fn lower_bytes(s: Seq<u8>) -> Seq<u8> {
    s.map_values(|b: u8| lower_byte(b))
}

/// Whether the index path `s` can be walked from `n`.
pub open spec fn trie_has(n: Trie, s: Seq<u8>) -> bool
    decreases s.len(),
{
    if s.len() <= 0 {
        true
    } else if 0 <= s[0] < 27 && n.children@.len() == 27 {
        match n.children@[s[0] as int] {
            Option::Some(c) => trie_has(*c, s.skip(1)),
            Option::None => false,
        }
    } else {
        false
    }
}

/// Every node has its full width, recursively.
pub open spec fn wf_trie(n: Trie) -> bool
    decreases n,
{
    &&& n.children@.len() == 27
    &&& forall|i: int| 0 <= i < 27 ==> wf_link(#[trigger] n.children@[i])
}

pub open spec fn wf_link(l: Link) -> bool
    decreases l,
{
    match l {
        Option::None => true,
        Option::Some(b) => wf_trie(*b),
    }
}

/// One trie node; this iteration has no separate top-level type, the root
/// node is the index.
pub struct Trie {
    pub children: Vec<Link>,
}

impl Trie {
    /// Whether the index path `s` is present.
    pub open spec fn has(self, s: Seq<u8>) -> bool {
        trie_has(self, s)
    }

    /// The child index of a character: lower-case ASCII letters map to
    /// `0 .. 26`, everything else has no index.
    pub fn char_to_usize(c: char) -> (r: Option<usize>)
        ensures
            97 <= (c as u32) < 123 ==> r == Option::Some(((c as u32) - 97) as usize),
            !(97 <= (c as u32) < 123) ==> r is None,
    {
        let code: u32 = c as u32;
        if code >= 97 && code < 97 + 26 {
            Option::Some((code - 97) as usize)
        } else {
            Option::None
        }
    }

    /// An empty trie node.
    pub fn new() -> (r: Trie)
        ensures
            wf_trie(r),
            forall|s: Seq<u8>| r.has(s) == (s.len() == 0),
    {
        let mut children: Vec<Link> = Vec::new();
        let mut i: usize = 0;
        while i < 27
            invariant
                i <= 27,
                children@.len() == i,
                forall|j: int| 0 <= j < i ==> (#[trigger] children@[j]) is None,
            decreases 27 - i,
        {
            children.push(Option::None);
            i = i + 1;
        }
        let r = Trie { children };
        proof {
            assert forall|s: Seq<u8>| r.has(s) == (s.len() == 0) by {
                if s.len() > 0 && 0 <= s[0] < 27 {
                    assert(r.children@[s[0] as int] is None);
                }
            }
        }
        r
    }

    /// Inserts a value's letters, as far as they run: the path of the
    /// value's longest letter prefix and all its prefixes become present;
    /// every present path stays. Only full matching is implemented in this
    /// iteration.
    pub fn add(&mut self, value: &String, full: bool)
        requires
            wf_trie(*old(self)),
            full,
        ensures
            wf_trie(*final(self)),
            forall|s: Seq<u8>|
                final(self).has(s) == (old(self).has(s) || is_prefix_of(
                    s,
                    path_of(vstd::utf8::encode_utf8(value@)),
                )),
    {
        let bytes = value.as_str().as_bytes();
        proof {
            assert(bytes@.skip(0) =~= bytes@);
        }
        self.add_some(bytes, 0);
    }

    /// Walks the letters of `s[from..]` into the trie, creating each missing
    /// node along the way, and stops at the first byte that is no letter.
    fn add_some(&mut self, s: &[u8], from: usize)
        requires
            wf_trie(*old(self)),
            from <= s@.len(),
        ensures
            wf_trie(*final(self)),
            forall|p: Seq<u8>|
                trie_has(*final(self), p) == (trie_has(*old(self), p) || is_prefix_of(
                    p,
                    path_of(s@.skip(from as int)),
                )),
        decreases s@.len() - from,
    {
        let ghost t = path_of(s@.skip(from as int));
        if from == s.len() {
            proof {
                assert(s@.skip(from as int) =~= Seq::<u8>::empty());
                assert forall|p: Seq<u8>|
                    trie_has(*self, p) == (trie_has(*self, p) || is_prefix_of(p, t)) by {
                    if is_prefix_of(p, t) {
                        assert(p.len() == 0);
                    }
                }
            }
            return ;
        }
        let b = s[from];
        if b >= 97 && b < 97 + 26 {
            let idx = (b - 97) as usize;
            let ghost a = *self;
            let ghost ochildren = self.children@;
            let slot = self.children.remove(idx);
            let mut child: Trie = match slot {
                Option::Some(bx) => *bx,
                Option::None => Trie::new(),
            };
            let ghost c0 = child;
            child.add_some(s, from + 1);
            self.children.insert(idx, Option::Some(Box::new(child)));
            proof {
                assert(self.children@ =~= ochildren.update(
                    idx as int,
                    Option::Some(Box::new(child)),
                ));
                assert(s@.skip(from as int)[0] == s@[from as int]);
                assert(s@.skip(from as int).skip(1) =~= s@.skip(from as int + 1));
                assert(t == seq![idx as u8] + path_of(s@.skip(from as int + 1)));
                assert(t[0] == idx as u8);
                assert(t.skip(1) =~= path_of(s@.skip(from as int + 1)));
                lemma_path_head_tail_prefix(t);
                assert forall|p: Seq<u8>|
                    trie_has(*self, p) == (trie_has(a, p) || is_prefix_of(p, t)) by {
                    if p.len() == 0 {
                    } else if p[0] == t[0] {
                        assert(trie_has(*self, p) == trie_has(child, p.skip(1)));
                        match ochildren[idx as int] {
                            Option::Some(bx) => {
                                assert(trie_has(a, p) == trie_has(*bx, p.skip(1)));
                                assert(trie_has(child, p.skip(1)) == (trie_has(c0, p.skip(1))
                                    || is_prefix_of(p.skip(1), t.skip(1))));
                            },
                            Option::None => {
                                assert(!trie_has(a, p));
                                assert(trie_has(c0, p.skip(1)) == (p.skip(1).len() == 0));
                                if p.skip(1).len() == 0 {
                                    assert(is_prefix_of(p.skip(1), t.skip(1))) by {
                                        assert(p.skip(1) =~= t.skip(1).subrange(0, 0));
                                    }
                                }
                            },
                        }
                    } else {
                        if 0 <= p[0] < 27 {
                            assert(self.children@[p[0] as int] == ochildren[p[0] as int]);
                        }
                        assert(!is_prefix_of(p, t));
                    }
                }
            }
        } else {
            proof {
                assert(!mappable(s@.skip(from as int)[0]));
                assert forall|p: Seq<u8>|
                    trie_has(*self, p) == (trie_has(*self, p) || is_prefix_of(p, t)) by {
                    if is_prefix_of(p, t) {
                        assert(p.len() == 0);
                    }
                }
            }
        }
    }

    /// Whether a value matches: the query is lowered byte by byte, every
    /// lowered byte must be a letter, and the letters' path must be present.
    pub fn contains(&self, value: &String) -> (r: bool)
        requires
            wf_trie(*self),
        ensures
            r == ({
                let f = lower_bytes(vstd::utf8::encode_utf8(value@));
                all_letters(f) && self.has(path_of(f))
            }),
    {
        let bytes = value.as_str().as_bytes();
        let ghost f = lower_bytes(bytes@);
        let mut ids: Vec<u8> = Vec::new();
        let mut i: usize = 0;
        while i < bytes.len()
            invariant
                i <= bytes@.len(),
                bytes@ == vstd::utf8::encode_utf8(value@),
                f == lower_bytes(bytes@),
                forall|j: int| 0 <= j < i ==> mappable(#[trigger] f[j]),
                ids@ == path_of(f.take(i as int)),
                forall|j: int| 0 <= j < ids@.len() ==> (#[trigger] ids@[j]) < 27,
            decreases bytes@.len() - i,
        {
            let b = bytes[i];
            let folded: u8 = if b >= 65 && b <= 90 {
                b + 32
            } else {
                b
            };
            proof {
                assert(f[i as int] == folded);
                lemma_path_of_all_letters(f, i as int);
            }
            if !(folded >= 97 && folded < 97 + 26) {
                proof {
                    assert(!mappable(f[i as int]));
                    assert(!all_letters(f));
                    lemma_path_of_cut(f, i as int);
                }
                return false;
            }
            ids.push(folded - 97);
            i = i + 1;
        }
        proof {
            assert(f.take(f.len() as int) =~= f);
            assert(ids@.skip(0) =~= ids@);
        }
        self.has_ids(&ids, 0)
    }

    /// Walks the indices `ids[from..]` without mutating, and reports whether
    /// the whole path is present.
    fn has_ids(&self, ids: &Vec<u8>, from: usize) -> (r: bool)
        requires
            wf_trie(*self),
            from <= ids@.len(),
            forall|i: int| 0 <= i < ids@.len() ==> (#[trigger] ids@[i]) < 27,
        ensures
            r == trie_has(*self, ids@.skip(from as int)),
        decreases ids@.len() - from,
    {
        proof {
            if from < ids@.len() {
                assert(ids@.skip(from as int)[0] == ids@[from as int]);
                assert(ids@.skip(from as int).skip(1) =~= ids@.skip(from as int + 1));
            } else {
                assert(ids@.skip(from as int) =~= Seq::<u8>::empty());
            }
        }
        if from == ids.len() {
            true
        } else {
            let b = ids[from] as usize;
            match &self.children[b] {
                Option::Some(bx) => bx.has_ids(ids, from + 1),
                Option::None => false,
            }
        }
    }
}

/// A letter path splits into its head index and the path of the rest.
proof fn lemma_path_head_tail_prefix(t: Seq<u8>)
    requires
        t.len() > 0,
    ensures
        forall|s: Seq<u8>|
            #[trigger] is_prefix_of(s, t) <==> (s.len() == 0 || (s.len() > 0 && s[0] == t[0]
                && is_prefix_of(s.skip(1), t.skip(1)))),
{
    assert forall|s: Seq<u8>|
        #[trigger] is_prefix_of(s, t) <==> (s.len() == 0 || (s.len() > 0 && s[0] == t[0]
            && is_prefix_of(s.skip(1), t.skip(1)))) by {
        if s.len() == 0 {
            assert(s =~= t.subrange(0, 0));
        } else {
            if is_prefix_of(s, t) {
                assert(s[0] == t.subrange(0, s.len() as int)[0]);
                assert forall|i: int| 0 <= i < s.skip(1).len() implies s.skip(1)[i] == t.skip(
                    1,
                ).subrange(0, s.len() - 1)[i] by {
                    assert(s.skip(1)[i] == s[i + 1]);
                    assert(t.skip(1).subrange(0, s.len() - 1)[i] == t[i + 1]);
                    assert(s[i + 1] == t.subrange(0, s.len() as int)[i + 1]);
                }
                assert(s.skip(1) =~= t.skip(1).subrange(0, s.skip(1).len() as int));
            }
            if s.len() > 0 && s[0] == t[0] && is_prefix_of(s.skip(1), t.skip(1)) {
                assert forall|i: int| 0 <= i < s.len() implies s[i] == t.subrange(
                    0,
                    s.len() as int,
                )[i] by {
                    if i > 0 {
                        assert(s.skip(1)[i - 1] == t.skip(1).subrange(0, s.len() - 1)[i - 1]);
                        assert(s.skip(1)[i - 1] == s[i]);
                        assert(t.skip(1).subrange(0, s.len() - 1)[i - 1] == t[i]);
                    }
                }
                assert(s =~= t.subrange(0, s.len() as int));
            }
        }
    }
}

/// While every byte so far is a letter, the path of a prefix one longer
/// grows by that byte's index.
proof fn lemma_path_of_all_letters(f: Seq<u8>, i: int)
    requires
        0 <= i < f.len(),
        forall|j: int| 0 <= j < i ==> mappable(#[trigger] f[j]),
    ensures
        mappable(f[i]) ==> path_of(f.take(i + 1)) == path_of(f.take(i)).push((f[i] - 97) as u8),
    decreases i,
{
    if mappable(f[i]) {
        if i == 0 {
            assert(f.take(1) =~= seq![f[0]]);
            assert(f.take(1).skip(1) =~= Seq::<u8>::empty());
            assert(path_of(Seq::<u8>::empty()) =~= Seq::<u8>::empty());
            assert(path_of(f.take(1)) =~= Seq::<u8>::empty().push((f[0] - 97) as u8));
            assert(f.take(0) =~= Seq::<u8>::empty());
        } else {
            lemma_path_of_all_letters(f.skip(1), i - 1);
            assert(f.take(i + 1)[0] == f[0]);
            assert(f.take(i + 1).skip(1) =~= f.skip(1).take(i));
            assert(f.take(i)[0] == f[0]);
            assert(f.take(i).skip(1) =~= f.skip(1).take(i - 1));
            assert(f.skip(1)[i - 1] == f[i]);
            assert forall|j: int| 0 <= j < i - 1 implies mappable(#[trigger] f.skip(1)[j]) by {
                assert(f.skip(1)[j] == f[j + 1]);
            }
            assert(path_of(f.take(i + 1)) == seq![(f[0] - 97) as u8] + path_of(f.skip(1).take(i)));
            assert(path_of(f.take(i)) == seq![(f[0] - 97) as u8] + path_of(f.skip(1).take(i - 1)));
            assert(path_of(f.skip(1).take(i)) == path_of(f.skip(1).take(i - 1)).push(
                (f[i] - 97) as u8,
            ));
            assert(path_of(f.take(i + 1)) =~= path_of(f.take(i)).push((f[i] - 97) as u8));
        }
    }
}

/// A byte that is no letter cuts the path: nothing beyond the letters before
/// it is indexed.
proof fn lemma_path_of_cut(f: Seq<u8>, i: int)
    requires
        0 <= i < f.len(),
        forall|j: int| 0 <= j < i ==> mappable(#[trigger] f[j]),
        !mappable(f[i]),
    ensures
        path_of(f) == path_of(f.take(i)),
    decreases i,
{
    if i == 0 {
        assert(f.take(0) =~= Seq::<u8>::empty());
    } else {
        lemma_path_of_cut(f.skip(1), i - 1);
        assert(f.skip(1)[i - 1] == f[i]);
        assert forall|j: int| 0 <= j < i - 1 implies mappable(#[trigger] f.skip(1)[j]) by {
            assert(f.skip(1)[j] == f[j + 1]);
        }
        assert(path_of(f) == seq![(f[0] - 97) as u8] + path_of(f.skip(1)));
        assert(f.take(i)[0] == f[0]);
        assert(f.take(i).skip(1) =~= f.skip(1).take(i - 1));
        assert(path_of(f.take(i)) == seq![(f[0] - 97) as u8] + path_of(f.skip(1).take(i - 1)));
    }
}

} // verus!
