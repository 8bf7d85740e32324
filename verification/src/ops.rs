//! Executable traversal and restructuring of the trie nodes. The key
//! being inserted or looked up is passed as a slice together with an
//! offset `off`; the suffix still to be consumed is `key@.skip(off)`.

use vstd::prelude::*;

use crate::node::Node;
use crate::node::TrieNode;
use crate::node::PrefixNode;
use crate::node::node_get;
use crate::node::trie_get;
use crate::node::prefix_get;
use crate::node::chain_get;
use crate::node::children_get;
use crate::node::node_count;
use crate::node::trie_count;
use crate::node::children_count;
use crate::node::prefix_count;
use crate::node::chain_count;
use crate::node::opt_count;
use crate::node::node_wf;
use crate::node::trie_wf;
use crate::node::prefix_wf;
use crate::node::children_wf;
use crate::node::children_sorted;
use crate::node_lemmas::lemma_children_wf_index;
use crate::node_lemmas::lemma_children_get_absent;
use crate::node_lemmas::lemma_children_get_at;
use crate::node_lemmas::lemma_children_get_update;
use crate::node_lemmas::lemma_children_count_update;
use crate::node_lemmas::lemma_children_wf_update;
use crate::node_lemmas::lemma_children_insert_get;
use crate::node_lemmas::lemma_children_insert_count;
use crate::node_lemmas::lemma_children_insert_wf;
use crate::node_lemmas::lemma_children_insert_sorted;
use crate::node_lemmas::lemma_children_pair;
use crate::node_lemmas::lemma_chain_get_unprefix;
use crate::node_lemmas::lemma_prefix_of_prefix;
use crate::node_lemmas::lemma_eq_from_parts;

verus! {

/// Copies `s[start..end]` into a fresh owned vector.
pub(crate) fn subrange_to_vec(s: &[u8], start: usize, end: usize) -> (r: Vec<u8>)
    requires
        start <= end <= s@.len(),
    ensures
        r@ == s@.subrange(start as int, end as int),
{
    let mut r: Vec<u8> = Vec::new();
    let mut i: usize = start;
    while i < end
        invariant
            start <= i <= end <= s@.len(),
            r@ == s@.subrange(start as int, i as int),
        decreases end - i,
    {
        r.push(s[i]);
        assert(r@ =~= s@.subrange(start as int, i + 1 as int));
        i = i + 1;
    }
    r
}

impl<V> TrieNode<V> {
    /// A branching node with no children and no value: the empty map.
    pub(crate) fn empty() -> (t: Self)
        ensures
            trie_wf(t),
            trie_count(t) == 0,
            forall|k: Seq<u8>| trie_get(t, k) is None,
    {
        let t = TrieNode { children: Vec::new(), value: None::<V> };
        proof {
            assert forall|k: Seq<u8>| trie_get(t, k) is None by {
                if k.len() > 0 {
                    assert(children_get(t.children@, k[0], k.skip(1)) is None);
                }
            }
        }
        t
    }

    /// The index where byte `b` sits in the sorted children list, or where
    /// it would have to be inserted to keep the list sorted.
    fn find_child_position(&self, b: u8) -> (i: usize)
        requires
            children_sorted(self.children@),
        ensures
            i <= self.children@.len(),
            forall|j: int| 0 <= j < i ==> self.children@[j].0 < b,
            forall|j: int| i <= j < self.children@.len() ==> self.children@[j].0 >= b,
    {
        let n = self.children.len();
        let mut i: usize = 0;
        while i < n
            invariant
                i <= n == self.children@.len(),
                children_sorted(self.children@),
                forall|j: int| 0 <= j < i ==> self.children@[j].0 < b,
            decreases n - i,
        {
            if self.children[i].0 >= b {
                return i;
            }
            i = i + 1;
        }
        i
    }

    /// The index of the child labelled `b`, if the node has one.
    fn scan_child(&self, b: u8) -> (r: Option<usize>)
        ensures
            match r {
                Some(i) => {
                    &&& i < self.children@.len()
                    &&& self.children@[i as int].0 == b
                    &&& forall|j: int| 0 <= j < i ==> self.children@[j].0 != b
                },
                None => forall|j: int| 0 <= j < self.children@.len() ==> self.children@[j].0 != b,
            },
    {
        let n = self.children.len();
        let mut i: usize = 0;
        while i < n
            invariant
                i <= n == self.children@.len(),
                forall|j: int| 0 <= j < i ==> self.children@[j].0 != b,
            decreases n - i,
        {
            if self.children[i].0 == b {
                return Some(i);
            }
            i = i + 1;
        }
        None
    }

    /// Inserts the key suffix `key[off..]` below this branching node,
    /// returning the displaced value if the key was already stored.
    pub(crate) fn insert(&mut self, key: &[u8], off: usize, value: V) -> (r: Option<V>)
        requires
            off <= key@.len(),
            trie_wf(*old(self)),
        ensures
            trie_wf(*final(self)),
            r == trie_get(*old(self), key@.skip(off as int)),
            trie_count(*final(self)) + opt_count(r) == trie_count(*old(self)) + 1,
            forall|k: Seq<u8>| #[trigger] trie_get(*final(self), k) == (if k == key@.skip(
                off as int,
            ) {
                Some(value)
            } else {
                trie_get(*old(self), k)
            }),
        decreases *old(self),
    {
        let ghost suffix = key@.skip(off as int);
        if off == key.len() {
            // The key ends here: this node's own value slot is the target.
            let mut newv = Some(value);
            core::mem::swap(&mut self.value, &mut newv);
            let r = newv;
            proof {
                assert(suffix.len() == 0);
                assert forall|k: Seq<u8>| #[trigger] trie_get(*self, k) == (if k == suffix {
                    Some(value)
                } else {
                    trie_get(*old(self), k)
                }) by {
                    if k.len() == 0 {
                        assert(k =~= suffix);
                    } else {
                        assert(k != suffix);
                    }
                }
            }
            r
        } else {
            let b = key[off];
            proof {
                assert(suffix.len() > 0);
                assert(suffix[0] == b);
                assert(suffix.skip(1) =~= key@.skip(off + 1 as int));
            }
            let i = self.find_child_position(b);
            let ghost cs0 = self.children@;
            let hit = i < self.children.len() && self.children[i].0 == b;
            if hit {
                // A child already dispatches on this byte: recurse into it.
                let (cb, mut child) = self.children.remove(i);
                proof {
                    assert(cb == b);
                    assert(forall|j: int|
                        0 <= j < cs0.len() && j != i ==> cs0[j].0 != cs0[i as int].0);
                    lemma_children_wf_index(cs0, i as int);
                    assert(decreases_to!(*old(self) => child));
                }
                let ghost child0 = child;
                let r = child.insert(key, off + 1, value);
                let ghost nchild = child;
                self.children.insert(i, (cb, child));
                proof {
                    let csn = self.children@;
                    assert(csn =~= cs0.update(i as int, (b, nchild)));
                    lemma_children_count_update(cs0, i as int, nchild);
                    lemma_children_wf_update(cs0, i as int, nchild);
                    assert(children_sorted(csn)) by {
                        assert(forall|j: int| 0 <= j < csn.len() ==> csn[j].0 == cs0[j].0);
                    }
                    lemma_children_get_at(cs0, i as int, suffix.skip(1));
                    assert forall|k: Seq<u8>| #[trigger] trie_get(*self, k) == (if k == suffix {
                        Some(value)
                    } else {
                        trie_get(*old(self), k)
                    }) by {
                        if k.len() == 0 {
                            assert(k != suffix);
                        } else {
                            lemma_children_get_update(cs0, i as int, nchild, k[0], k.skip(1));
                            if k[0] == b {
                                lemma_children_get_at(cs0, i as int, k.skip(1));
                                if k.skip(1) == key@.skip(off + 1 as int) {
                                    lemma_eq_from_parts(k, suffix, 1);
                                }
                                if k == suffix {
                                    assert(k.skip(1) =~= key@.skip(off + 1 as int));
                                }
                            } else {
                                assert(k != suffix);
                            }
                        }
                    }
                }
                r
            } else {
                // No child dispatches on this byte: a fresh compressed run
                // stores the whole remaining suffix.
                let tail = subrange_to_vec(key, off + 1, key.len());
                let p = PrefixNode::new(tail, value);
                let ghost gp = p;
                self.children.insert(i, (b, Node::Prefix(p)));
                proof {
                    let csn = self.children@;
                    let pn = Node::Prefix(gp);
                    assert(csn == cs0.insert(i as int, (b, pn)));
                    assert(forall|j: int| 0 <= j < i ==> cs0[j].0 < b);
                    assert forall|j: int| i <= j < cs0.len() implies cs0[j].0 > b by {
                        assert(cs0[i as int].0 != b);
                        assert(cs0[i as int].0 >= b);
                        if j > i {
                            assert(cs0[j].0 > cs0[i as int].0);
                        }
                    }
                    assert(forall|j: int| 0 <= j < cs0.len() ==> cs0[j].0 != b);
                    lemma_children_insert_sorted(cs0, i as int, b, pn);
                    lemma_children_insert_wf(cs0, i as int, b, pn);
                    lemma_children_insert_count(cs0, i as int, b, pn);
                    lemma_children_get_absent(cs0, b, suffix.skip(1));
                    assert(tail@ =~= suffix.skip(1));
                    assert forall|k: Seq<u8>| #[trigger] trie_get(*self, k) == (if k == suffix {
                        Some(value)
                    } else {
                        trie_get(*old(self), k)
                    }) by {
                        if k.len() == 0 {
                            assert(k != suffix);
                        } else {
                            lemma_children_insert_get(cs0, i as int, b, pn, k[0], k.skip(1));
                            if k[0] == b {
                                assert(node_get(pn, k.skip(1)) == prefix_get(gp, k.skip(1)));
                                lemma_children_get_absent(cs0, b, k.skip(1));
                                if k.skip(1) == tail@ {
                                    lemma_eq_from_parts(k, suffix, 1);
                                }
                                if k == suffix {
                                    assert(k.skip(1) =~= tail@);
                                }
                            } else {
                                assert(k != suffix);
                            }
                        }
                    }
                }
                None
            }
        }
    }

    pub(crate) fn get<'a>(&'a self, key: &[u8], off: usize) -> (r: Option<&'a V>)
        requires
            off <= key@.len(),
        ensures
            match r {
                Some(v) => trie_get(*self, key@.skip(off as int)) == Some(*v),
                None => trie_get(*self, key@.skip(off as int)) is None,
            },
        decreases *self,
    {
        let ghost suffix = key@.skip(off as int);
        if off == key.len() {
            assert(suffix.len() == 0);
            self.value.as_ref()
        } else {
            let b = key[off];
            assert(suffix.len() > 0 && suffix[0] == b && suffix.skip(1) =~= key@.skip(
                off + 1 as int,
            ));
            match self.scan_child(b) {
                Some(i) => {
                    proof {
                        lemma_children_get_at(self.children@, i as int, suffix.skip(1));
                        assert(decreases_to!(*self => self.children@[i as int].1));
                    }
                    self.children[i].1.get(key, off + 1)
                },
                None => {
                    proof {
                        lemma_children_get_absent(self.children@, b, suffix.skip(1));
                    }
                    None
                },
            }
        }
    }
}

impl<V> Node<V> {
    fn insert(&mut self, key: &[u8], off: usize, value: V) -> (r: Option<V>)
        requires
            off <= key@.len(),
            node_wf(*old(self)),
        ensures
            node_wf(*final(self)),
            r == node_get(*old(self), key@.skip(off as int)),
            node_count(*final(self)) + opt_count(r) == node_count(*old(self)) + 1,
            forall|k: Seq<u8>| #[trigger] node_get(*final(self), k) == (if k == key@.skip(
                off as int,
            ) {
                Some(value)
            } else {
                node_get(*old(self), k)
            }),
        decreases *old(self),
    {
        let mut tmp = Node::Trie(TrieNode { children: Vec::new(), value: None::<V> });
        core::mem::swap(self, &mut tmp);
        match tmp {
            Node::Trie(mut t) => {
                proof {
                    assert(decreases_to!(*old(self) => t));
                }
                let ghost t0 = t;
                let r = t.insert(key, off, value);
                let ghost t1 = t;
                *self = Node::Trie(t);
                proof {
                    assert(*old(self) == Node::Trie(t0));
                    assert(node_count(*self) == trie_count(t1));
                    assert(node_count(*old(self)) == trie_count(t0));
                    assert forall|k: Seq<u8>| #[trigger] node_get(*self, k) == (if k == key@.skip(
                        off as int,
                    ) {
                        Some(value)
                    } else {
                        node_get(*old(self), k)
                    }) by {
                        assert(node_get(*self, k) == trie_get(t1, k));
                        assert(node_get(*old(self), k) == trie_get(t0, k));
                    }
                }
                r
            },
            Node::Prefix(p) => {
                proof {
                    assert(decreases_to!(*old(self) => p));
                }
                let ghost p0 = p;
                let (n, r) = p.insert(key, off, value);
                let ghost n1 = n;
                *self = n;
                proof {
                    assert(*old(self) == Node::Prefix(p0));
                    assert(node_count(*old(self)) == prefix_count(p0));
                    assert forall|k: Seq<u8>| #[trigger] node_get(*self, k) == (if k == key@.skip(
                        off as int,
                    ) {
                        Some(value)
                    } else {
                        node_get(*old(self), k)
                    }) by {
                        assert(node_get(*self, k) == node_get(n1, k));
                        assert(node_get(*old(self), k) == prefix_get(p0, k));
                    }
                }
                r
            },
        }
    }

    fn get<'a>(&'a self, key: &[u8], off: usize) -> (r: Option<&'a V>)
        requires
            off <= key@.len(),
        ensures
            match r {
                Some(v) => node_get(*self, key@.skip(off as int)) == Some(*v),
                None => node_get(*self, key@.skip(off as int)) is None,
            },
        decreases *self,
    {
        match self {
            Node::Trie(t) => t.get(key, off),
            Node::Prefix(p) => p.get(key, off),
        }
    }
}

impl<V> PrefixNode<V> {
    /// A compressed run holding the given bytes, value slot and
    /// continuation.
    pub(crate) fn with_child(key: Vec<u8>, value: Option<V>, child: Option<Box<Node<V>>>) -> (p:
        Self)
        ensures
            p.key == key,
            p.value == value,
            p.child == child,
    {
        PrefixNode { key, value, child }
    }

    /// A fresh compressed run storing exactly one key.
    pub(crate) fn new(key: Vec<u8>, value: V) -> (p: Self)
        ensures
            prefix_wf(p),
            prefix_count(p) == 1,
            forall|k: Seq<u8>| #[trigger] prefix_get(p, k) == (if k == key@ {
                Some(value)
            } else {
                None::<V>
            }),
    {
        let p = PrefixNode { key, value: Some(value), child: None };
        proof {
            assert forall|k: Seq<u8>| #[trigger] prefix_get(p, k) == (if k == p.key@ {
                Some(value)
            } else {
                None::<V>
            }) by {
                if p.key@.is_prefix_of(k) && k.len() == p.key@.len() {
                    assert(k =~= p.key@);
                }
                if k == p.key@ {
                    assert(p.key@.is_prefix_of(k));
                }
            }
        }
        p
    }

    /// Bursts a compressed run that diverges from the inserted key: builds
    /// the branching node dispatching on the two distinct bytes, with the
    /// old run's remainder (value and continuation intact) under `cb` and
    /// the new key's remainder under `kb`.
    fn burst_and_insert(
        cb: u8,
        old_tail: Vec<u8>,
        cval: Option<V>,
        cchild: Option<Box<Node<V>>>,
        kb: u8,
        new_tail: Vec<u8>,
        value: V,
    ) -> (t: TrieNode<V>)
        requires
            cb != kb,
            cval is Some || cchild is Some,
            match cchild {
                Some(c) => node_wf(*c) && node_get(*c, Seq::empty()) is None,
                None => true,
            },
        ensures
            trie_wf(t),
            trie_count(t) == chain_count(cval, cchild) + 1,
            t.value is None,
            forall|k: Seq<u8>| #[trigger] trie_get(t, k) == (if k.len() == 0 {
                None::<V>
            } else if k[0] == cb {
                chain_get(old_tail@, cval, cchild, k.skip(1))
            } else if k[0] == kb {
                if k.skip(1) == new_tail@ {
                    Some(value)
                } else {
                    None::<V>
                }
            } else {
                None::<V>
            }),
    {
        let chain_old = PrefixNode::with_child(old_tail, cval, cchild);
        let chain_new = PrefixNode::new(new_tail, value);
        let ghost co = chain_old;
        let ghost cn = chain_new;
        let mut children: Vec<(u8, Node<V>)> = Vec::new();
        if cb < kb {
            children.push((cb, Node::Prefix(chain_old)));
            children.push((kb, Node::Prefix(chain_new)));
        } else {
            children.push((kb, Node::Prefix(chain_new)));
            children.push((cb, Node::Prefix(chain_old)));
        }
        let t = TrieNode { children, value: None::<V> };
        proof {
            let cs = t.children@;
            assert(cs.len() == 2);
            assert(cs[0].0 != cs[1].0);
            assert forall|k: Seq<u8>| #[trigger] trie_get(t, k) == (if k.len() == 0 {
                None::<V>
            } else if k[0] == cb {
                chain_get(old_tail@, cval, cchild, k.skip(1))
            } else if k[0] == kb {
                if k.skip(1) == new_tail@ {
                    Some(value)
                } else {
                    None::<V>
                }
            } else {
                None::<V>
            }) by {
                if k.len() > 0 {
                    lemma_children_pair(cs, k[0], k.skip(1));
                    assert(node_get(Node::Prefix(co), k.skip(1)) == prefix_get(co, k.skip(1)));
                    assert(prefix_get(co, k.skip(1)) == chain_get(old_tail@, cval, cchild, k.skip(
                        1,
                    )));
                    assert(node_get(Node::Prefix(cn), k.skip(1)) == prefix_get(cn, k.skip(1)));
                }
            }
            lemma_children_pair(cs, 0u8, Seq::<u8>::empty());
            assert(node_count(Node::Prefix(co)) == chain_count(cval, cchild));
            assert(node_count(Node::Prefix(cn)) == 1);
            if cn.value is Some && cn.child is None {
                assert(node_wf(Node::Prefix(cn)));
            }
            assert(node_wf(Node::Prefix(co)));
        }
        t
    }

    /// Inserts the key suffix `key[off..]` into this compressed run. The
    /// returned node takes the run's place in the parent slot: the run
    /// itself (contents updated or spliced) or, if the run burst right at
    /// its first byte, the branching node that replaces it. The second
    /// component is the displaced value, if the key was already stored.
    #[verifier::rlimit(60)]
    fn insert(self, key: &[u8], off: usize, value: V) -> (res: (Node<V>, Option<V>))
        requires
            off <= key@.len(),
            prefix_wf(self),
        ensures
            node_wf(res.0),
            res.1 == prefix_get(self, key@.skip(off as int)),
            node_count(res.0) + opt_count(res.1) == prefix_count(self) + 1,
            forall|k: Seq<u8>| #[trigger] node_get(res.0, k) == (if k == key@.skip(off as int) {
                Some(value)
            } else {
                prefix_get(self, k)
            }),
        decreases self,
    {
        let ghost self0 = self;
        let ghost suffix = key@.skip(off as int);
        let pos_opt = self.find_difference(key, off);
        let klen = key.len() - off;
        match pos_opt {
            None => {
                if klen == self.key.len() {
                    // The suffix matches the run exactly: displace the value.
                    let PrefixNode { key: ckey, value: cval, child: cchild } = self;
                    let newp = PrefixNode { key: ckey, value: Some(value), child: cchild };
                    proof {
                        assert(suffix =~= ckey@);
                        assert(ckey@.is_prefix_of(suffix));
                        assert(prefix_wf(self0));
                        assert(node_wf(Node::Prefix(newp)));
                        assert(node_count(Node::Prefix(newp)) == chain_count(Some(value), cchild));
                        assert(prefix_count(self0) == chain_count(cval, cchild));
                        assert(prefix_get(self0, suffix) == cval);
                        assert forall|k: Seq<u8>| #[trigger] node_get(Node::Prefix(newp), k) == (
                        if k == suffix {
                            Some(value)
                        } else {
                            prefix_get(self0, k)
                        }) by {
                            if ckey@.is_prefix_of(k) && k.len() == ckey@.len() {
                                assert(k =~= ckey@);
                            }
                        }
                    }
                    (Node::Prefix(newp), cval)
                } else if klen > self.key.len() {
                    // The run is a strict prefix of the suffix: continue
                    // past it.
                    let new_off = off + self.key.len();
                    let ghost tail_suffix = key@.skip(new_off as int);
                    proof {
                        assert(self.key@.is_prefix_of(suffix)) by {
                            assert(self.key@ =~= suffix.subrange(0, self.key@.len() as int));
                        }
                        assert(tail_suffix =~= suffix.skip(self.key@.len() as int));
                    }
                    let PrefixNode { key: ckey, value: cval, child: cchild } = self;
                    let ghost cl = ckey@.len() as int;
                    match cchild {
                        Some(boxed) => {
                            let ghost child0 = *boxed;
                            let mut n: Node<V> = *boxed;
                            proof {
                                assert(decreases_to!(self0 => n));
                            }
                            let r = n.insert(key, new_off, value);
                            let newp = PrefixNode { key: ckey, value: cval, child: Some(
                                Box::new(n),
                            ) };
                            proof {
                                assert(tail_suffix.len() > 0);
                                assert(node_get(n, Seq::<u8>::empty()) == node_get(
                                    child0,
                                    Seq::<u8>::empty(),
                                ));
                                assert(node_wf(Node::Prefix(newp)));
                                assert(node_count(Node::Prefix(newp)) == opt_count(cval)
                                    + node_count(n));
                                assert(prefix_count(self0) == opt_count(cval) + node_count(
                                    child0,
                                ));
                                assert(suffix.skip(cl) == tail_suffix);
                                assert(prefix_get(self0, suffix) == node_get(child0, tail_suffix));
                                assert forall|k: Seq<u8>| #[trigger] node_get(
                                    Node::Prefix(newp),
                                    k,
                                ) == (if k == suffix {
                                    Some(value)
                                } else {
                                    prefix_get(self0, k)
                                }) by {
                                    assert(node_get(Node::Prefix(newp), k) == chain_get(
                                        ckey@,
                                        cval,
                                        newp.child,
                                        k,
                                    ));
                                    assert(prefix_get(self0, k) == chain_get(
                                        ckey@,
                                        cval,
                                        cchild,
                                        k,
                                    ));
                                    if ckey@.is_prefix_of(k) {
                                        if k.len() == cl {
                                            assert(k =~= ckey@);
                                            assert(k != suffix);
                                        } else {
                                            assert(chain_get(ckey@, cval, newp.child, k)
                                                == node_get(n, k.skip(cl)));
                                            assert(chain_get(ckey@, cval, cchild, k) == node_get(
                                                child0,
                                                k.skip(cl),
                                            ));
                                            if k.skip(cl) == tail_suffix {
                                                assert forall|j: int| 0 <= j < cl implies k[j]
                                                    == suffix[j] by {
                                                    assert(ckey@[j] == k.subrange(0, cl)[j]);
                                                    assert(ckey@[j] == suffix.subrange(0, cl)[j]);
                                                }
                                                lemma_eq_from_parts(k, suffix, cl);
                                            }
                                            if k == suffix {
                                                assert(k.skip(cl) =~= tail_suffix);
                                            }
                                        }
                                    } else {
                                        assert(k != suffix);
                                    }
                                }
                            }
                            (Node::Prefix(newp), r)
                        },
                        None => {
                            let tail = subrange_to_vec(key, new_off, key.len());
                            let chain = PrefixNode::new(tail, value);
                            let newp = PrefixNode { key: ckey, value: cval, child: Some(
                                Box::new(Node::Prefix(chain)),
                            ) };
                            proof {
                                assert(tail@ =~= tail_suffix);
                                assert(tail@.len() > 0);
                                assert(prefix_get(chain, Seq::<u8>::empty()) is None);
                                assert(node_wf(Node::Prefix(chain)));
                                assert(node_wf(Node::Prefix(newp)));
                                assert(node_count(Node::Prefix(chain)) == 1);
                                assert(node_count(Node::Prefix(newp)) == opt_count(cval) + 1);
                                assert(prefix_count(self0) == opt_count(cval));
                                assert(prefix_get(self0, suffix) is None);
                                assert forall|k: Seq<u8>| #[trigger] node_get(
                                    Node::Prefix(newp),
                                    k,
                                ) == (if k == suffix {
                                    Some(value)
                                } else {
                                    prefix_get(self0, k)
                                }) by {
                                    if ckey@.is_prefix_of(k) {
                                        if k.len() == cl {
                                            assert(k =~= ckey@);
                                            assert(k != suffix);
                                        } else {
                                            assert(node_get(Node::Prefix(chain), k.skip(cl))
                                                == prefix_get(chain, k.skip(cl)));
                                            if k.skip(cl) == tail_suffix {
                                                assert forall|j: int| 0 <= j < cl implies k[j]
                                                    == suffix[j] by {
                                                    assert(ckey@[j] == k.subrange(0, cl)[j]);
                                                    assert(ckey@[j] == suffix.subrange(0, cl)[j]);
                                                }
                                                lemma_eq_from_parts(k, suffix, cl);
                                            }
                                            if k == suffix {
                                                assert(k.skip(cl) =~= tail_suffix);
                                            }
                                        }
                                    } else {
                                        assert(k != suffix);
                                    }
                                }
                            }
                            (Node::Prefix(newp), None)
                        },
                    }
                } else {
                    // The suffix ends strictly inside the run: split the
                    // run, keeping its value and continuation one level
                    // deeper.
                    let rem = subrange_to_vec(self.key.as_slice(), klen, self.key.len());
                    let PrefixNode { key: mut ckey, value: cval, child: cchild } = self;
                    let ghost ckey0 = ckey@;
                    let tail_node = PrefixNode::with_child(rem, cval, cchild);
                    let ghost tn = tail_node;
                    ckey.truncate(klen);
                    let newp = PrefixNode { key: ckey, value: Some(value), child: Some(
                        Box::new(Node::Prefix(tail_node)),
                    ) };
                    proof {
                        assert(suffix =~= ckey0.subrange(0, klen as int));
                        assert(ckey@ == suffix);
                        assert(suffix.is_prefix_of(ckey0));
                        assert(tn.key@ == ckey0.skip(klen as int));
                        assert(suffix.is_prefix_of(suffix));
                        assert(!ckey0.is_prefix_of(suffix));
                        assert(prefix_wf(self0));
                        assert(tn.key@.len() > 0);
                        assert(prefix_get(tn, Seq::<u8>::empty()) is None);
                        assert(prefix_wf(tn));
                        assert(node_wf(Node::Prefix(tn)));
                        assert(prefix_wf(newp));
                        assert(node_wf(Node::Prefix(newp)));
                        assert(prefix_get(self0, suffix) is None);
                        assert forall|k: Seq<u8>| #[trigger] node_get(Node::Prefix(newp), k) == (
                        if k == suffix {
                            Some(value)
                        } else {
                            prefix_get(self0, k)
                        }) by {
                            if suffix.is_prefix_of(k) {
                                if k.len() == suffix.len() {
                                    assert(k =~= suffix);
                                } else {
                                    assert(node_get(Node::Prefix(tn), k.skip(klen as int))
                                        == chain_get(tn.key@, cval, cchild, k.skip(klen as int)));
                                    lemma_chain_get_unprefix(ckey0, cval, cchild, suffix, k);
                                    assert(k != suffix);
                                }
                            } else {
                                if ckey0.is_prefix_of(k) {
                                    lemma_prefix_of_prefix(suffix, ckey0, k);
                                }
                                assert(k != suffix);
                            }
                        }
                        assert(node_count(Node::Prefix(tn)) == chain_count(cval, cchild));
                        assert(prefix_count(self0) == chain_count(cval, cchild));
                        assert(node_count(Node::Prefix(newp)) == 1 + node_count(Node::Prefix(tn)));
                    }
                    (Node::Prefix(newp), None)
                }
            },
            Some(pos) => {
                // The run and the suffix diverge at `pos`: burst.
                let cb = self.key[pos];
                let kb = key[off + pos];
                let old_tail = subrange_to_vec(self.key.as_slice(), pos + 1, self.key.len());
                let new_tail = subrange_to_vec(key, off + pos + 1, key.len());
                let PrefixNode { key: mut ckey, value: cval, child: cchild } = self;
                let ghost ckey0 = ckey@;
                let ghost common = ckey0.subrange(0, pos as int);
                proof {
                    assert(common =~= suffix.subrange(0, pos as int));
                    assert(old_tail@ == ckey0.skip(pos + 1 as int));
                    assert(new_tail@ =~= suffix.skip(pos + 1 as int));
                    assert(!ckey0.is_prefix_of(suffix));
                }
                let branch = PrefixNode::burst_and_insert(
                    cb,
                    old_tail,
                    cval,
                    cchild,
                    kb,
                    new_tail,
                    value,
                );
                proof {
                    // How the burst branch answers a lookup of `k2`,
                    // against how the original run answered `common + k2`.
                    assert forall|k2: Seq<u8>|
                        common.is_prefix_of(#[trigger] (common + k2)) && trie_get(branch, k2) == (
                        if common + k2 == suffix {
                            Some(value)
                        } else {
                            chain_get(ckey0, cval, cchild, common + k2)
                        }) by {
                        let k = common + k2;
                        assert(common =~= k.subrange(0, pos as int));
                        assert(k.skip(pos as int) =~= k2);
                        if k2.len() == 0 {
                            assert(!ckey0.is_prefix_of(k));
                            assert(k != suffix);
                        } else if k2[0] == cb {
                            assert(k[pos as int] == cb);
                            assert(k != suffix);
                            let p1 = ckey0.subrange(0, pos + 1 as int);
                            assert(p1.is_prefix_of(ckey0));
                            assert(p1 =~= k.subrange(0, pos + 1 as int));
                            assert(p1.is_prefix_of(k));
                            lemma_chain_get_unprefix(ckey0, cval, cchild, p1, k);
                            assert(ckey0.skip(pos + 1 as int) == old_tail@);
                            assert(k.skip(pos + 1 as int) =~= k2.skip(1));
                        } else if k2[0] == kb {
                            assert(!ckey0.is_prefix_of(k)) by {
                                if ckey0.is_prefix_of(k) {
                                    assert(ckey0[pos as int] == k[pos as int]);
                                }
                            }
                            if k2.skip(1) == new_tail@ {
                                assert(k.skip(pos + 1 as int) =~= k2.skip(1));
                                assert(suffix.skip(pos + 1 as int) == new_tail@);
                                assert forall|j: int| 0 <= j < pos + 1 implies k[j] == suffix[j] by {
                                    if j < pos {
                                        assert(k[j] == common[j]);
                                        assert(common[j] == suffix.subrange(0, pos as int)[j]);
                                    } else {
                                        assert(k[j] == k2[0]);
                                        assert(suffix[pos as int] == key@[off + pos]);
                                    }
                                }
                                lemma_eq_from_parts(k, suffix, pos + 1);
                            }
                            if k == suffix {
                                assert(k2.skip(1) =~= new_tail@);
                            }
                        } else {
                            assert(!ckey0.is_prefix_of(k)) by {
                                if ckey0.is_prefix_of(k) {
                                    assert(ckey0[pos as int] == k[pos as int]);
                                }
                            }
                            assert(k != suffix) by {
                                if k == suffix {
                                    assert(k2[0] == suffix[pos as int]);
                                }
                            }
                        }
                    }
                }
                if pos == 0 {
                    proof {
                        assert(prefix_get(self0, suffix) is None);
                        assert(prefix_count(self0) == chain_count(cval, cchild));
                        assert forall|k: Seq<u8>| #[trigger] node_get(Node::Trie(branch), k) == (
                        if k == suffix {
                            Some(value)
                        } else {
                            prefix_get(self0, k)
                        }) by {
                            assert(common.len() == 0);
                            assert(common + k =~= k);
                            assert(common.is_prefix_of(common + k) && trie_get(branch, k) == (
                            if common + k == suffix {
                                Some(value)
                            } else {
                                chain_get(ckey0, cval, cchild, common + k)
                            }));
                        }
                    }
                    (Node::Trie(branch), None)
                } else {
                    ckey.truncate(pos);
                    let ghost gbranch = branch;
                    let newp = PrefixNode { key: ckey, value: None, child: Some(
                        Box::new(Node::Trie(branch)),
                    ) };
                    proof {
                        assert(ckey@ == common);
                        assert(prefix_get(self0, suffix) is None);
                        assert forall|k: Seq<u8>| #[trigger] node_get(Node::Prefix(newp), k) == (
                        if k == suffix {
                            Some(value)
                        } else {
                            prefix_get(self0, k)
                        }) by {
                            assert(node_get(Node::Prefix(newp), k) == chain_get(
                                common,
                                None::<V>,
                                newp.child,
                                k,
                            ));
                            assert(prefix_get(self0, k) == chain_get(ckey0, cval, cchild, k));
                            if common.is_prefix_of(k) {
                                if k.len() == common.len() {
                                    assert(k =~= common);
                                    assert(!ckey0.is_prefix_of(k));
                                    assert(k != suffix);
                                } else {
                                    let k2 = k.skip(pos as int);
                                    assert(chain_get(common, None::<V>, newp.child, k)
                                        == node_get(Node::Trie(gbranch), k2));
                                    assert(node_get(Node::Trie(gbranch), k2) == trie_get(
                                        gbranch,
                                        k2,
                                    ));
                                    assert(common + k2 =~= k);
                                    assert(common.is_prefix_of(common + k2) && trie_get(
                                        branch,
                                        k2,
                                    ) == (if common + k2 == suffix {
                                        Some(value)
                                    } else {
                                        chain_get(ckey0, cval, cchild, common + k2)
                                    }));
                                }
                            } else {
                                assert(!ckey0.is_prefix_of(k)) by {
                                    if ckey0.is_prefix_of(k) {
                                        lemma_prefix_of_prefix(common, ckey0, k);
                                    }
                                }
                                assert(common.is_prefix_of(suffix));
                                assert(k != suffix);
                            }
                        }
                        assert(node_count(Node::Trie(gbranch)) == trie_count(gbranch));
                        assert(prefix_count(self0) == chain_count(cval, cchild));
                        assert(node_count(Node::Prefix(newp)) == prefix_count(newp));
                        assert(prefix_count(newp) == chain_count(None::<V>, newp.child));
                        assert(chain_count(None::<V>, newp.child) == trie_count(gbranch));
                        assert(node_wf(Node::Trie(gbranch)));
                        assert(trie_get(gbranch, Seq::<u8>::empty()) is None);
                        assert(node_get(Node::Trie(gbranch), Seq::<u8>::empty()) is None);
                        assert(node_wf(Node::Prefix(newp)));
                    }
                    (Node::Prefix(newp), None)
                }
            },
        }
    }

    /// The first index, over the common length of the stored run and the
    /// remaining key suffix, where the two disagree.
    pub(crate) fn find_difference(&self, key: &[u8], off: usize) -> (r: Option<usize>)
        requires
            off <= key@.len(),
        ensures
            match r {
                Some(pos) => {
                    &&& pos < self.key@.len()
                    &&& off + pos < key@.len()
                    &&& key@[off + pos] != self.key@[pos as int]
                    &&& forall|j: int| 0 <= j < pos ==> key@[off + j] == self.key@[j]
                },
                None => forall|j: int|
                    0 <= j < self.key@.len() && j < key@.len() - off ==> key@[off + j]
                        == self.key@[j],
            },
    {
        let climit = self.key.len();
        let klimit = key.len() - off;
        let limit = if climit <= klimit {
            climit
        } else {
            klimit
        };
        let mut i: usize = 0;
        while i < limit
            invariant
                off <= key@.len(),
                key@.len() <= usize::MAX,
                limit <= self.key@.len(),
                off + limit <= key@.len(),
                i <= limit,
                limit == if self.key@.len() <= key@.len() - off {
                    self.key@.len() as int
                } else {
                    key@.len() - off
                },
                forall|j: int| 0 <= j < i ==> key@[off + j] == self.key@[j],
            decreases limit - i,
        {
            if key[off + i] != self.key[i] {
                return Some(i);
            }
            i = i + 1;
        }
        None
    }

    fn get<'a>(&'a self, key: &[u8], off: usize) -> (r: Option<&'a V>)
        requires
            off <= key@.len(),
        ensures
            match r {
                Some(v) => prefix_get(*self, key@.skip(off as int)) == Some(*v),
                None => prefix_get(*self, key@.skip(off as int)) is None,
            },
        decreases *self,
    {
        let ghost suffix = key@.skip(off as int);
        match self.find_difference(key, off) {
            Some(_) => {
                assert(!self.key@.is_prefix_of(suffix));
                None
            },
            None => {
                let klen = key.len() - off;
                if klen == self.key.len() {
                    assert(suffix =~= self.key@);
                    self.value.as_ref()
                } else if klen > self.key.len() {
                    assert(self.key@.is_prefix_of(suffix)) by {
                        assert(suffix.subrange(0, self.key@.len() as int) =~= self.key@);
                    }
                    match &self.child {
                        Some(c) => {
                            let r = c.get(key, off + self.key.len());
                            assert(key@.skip(off + self.key@.len()) =~= suffix.skip(
                                self.key@.len() as int,
                            ));
                            r
                        },
                        None => None,
                    }
                } else {
                    assert(!self.key@.is_prefix_of(suffix));
                    None
                }
            },
        }
    }
}

} // verus!
