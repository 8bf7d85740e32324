//! The public handle of the burst trie: a map from arbitrary byte
//! strings to values, with path compression inside.

use vstd::prelude::*;

use crate::node::TrieNode;
use crate::node::trie_get;
use crate::node::trie_count;
use crate::node::trie_wf;
use crate::counting::lemma_trie_count_is_card;
use crate::counting::trie_keys;
use vstd::set_lib::lemma_set_empty_equivalency_len;

verus! {

/// The map described by a sequence of (key, value) entries inserted in
/// order: for equal keys the later entry wins.
pub open spec fn map_of_entries<V>(s: Seq<(Seq<u8>, V)>) -> Map<Seq<u8>, V>
    decreases s.len(),
{
    if s.len() == 0 {
        Map::empty()
    } else {
        map_of_entries(s.drop_last()).insert(s.last().0, s.last().1)
    }
}

/// The entries of a list of owned (key, value) pairs, with each key seen
/// as the byte string it holds.
pub open spec fn entries_view<V>(s: Seq<(Vec<u8>, V)>) -> Seq<(Seq<u8>, V)> {
    Seq::new(s.len(), |i: int| (s[i].0@, s[i].1))
}

/// An in-memory map keyed by arbitrary byte strings. Unbranching runs of
/// the key space are stored as single compressed nodes; inserting a key
/// that diverges inside such a run bursts the run into a byte-indexed
/// branching node.
#[derive(Debug)]
pub struct TrieMap<V> {
    root: TrieNode<V>,
    len: usize,
}

impl<V> TrieMap<V> {
    /// The abstract contents: a partial map from byte strings to values.
    pub closed spec fn as_map(self) -> Map<Seq<u8>, V> {
        Map::new(
            |k: Seq<u8>| trie_get(self.root, k) is Some,
            |k: Seq<u8>| trie_get(self.root, k)->0,
        )
    }

    /// The number of distinct keys stored.
    pub closed spec fn spec_len(self) -> nat {
        trie_count(self.root)
    }

    /// Internal soundness: the nodes are well-formed and the cached
    /// length equals the number of stored keys.
    pub closed spec fn wf(self) -> bool {
        trie_wf(self.root) && self.len == trie_count(self.root)
    }

    /// An empty map.
    pub fn new() -> (m: Self)
        ensures
            m.wf(),
            m@ == Map::<Seq<u8>, V>::empty(),
            m.spec_len() == 0,
    {
        let m = TrieMap { root: TrieNode::empty(), len: 0 };
        proof {
            assert(m@ =~= Map::<Seq<u8>, V>::empty());
        }
        m
    }

    /// How many distinct keys are stored.
    pub fn len(&self) -> (n: usize)
        requires
            self.wf(),
        ensures
            n == self.spec_len(),
    {
        self.len
    }

    /// Whether no key is stored.
    pub fn is_empty(&self) -> (b: bool)
        requires
            self.wf(),
        ensures
            b <==> self.spec_len() == 0,
    {
        self.len == 0
    }

    /// Inserts `value` under `key`. Returns the value the key held
    /// before, or `None` if the key is new; exactly in the latter case
    /// the length grows by one.
    pub fn insert(&mut self, key: &[u8], value: V) -> (r: Option<V>)
        requires
            old(self).wf(),
            old(self).spec_len() < usize::MAX,
        ensures
            final(self).wf(),
            final(self)@ == old(self)@.insert(key@, value),
            r == (if old(self)@.contains_key(key@) {
                Some(old(self)@[key@])
            } else {
                None::<V>
            }),
            final(self).spec_len() == old(self).spec_len() + (if old(self)@.contains_key(key@) {
                0int
            } else {
                1int
            }),
    {
        proof {
            assert(key@.skip(0) =~= key@);
        }
        let r = self.root.insert(key, 0, value);
        if r.is_none() {
            self.len = self.len + 1;
        }
        proof {
            assert(final(self)@ =~= old(self)@.insert(key@, value));
        }
        r
    }

    /// The value stored under `key`, if any.
    pub fn get(&self, key: &[u8]) -> (r: Option<&V>)
        ensures
            match r {
                Some(v) => self@.contains_key(key@) && *v == self@[key@],
                None => !self@.contains_key(key@),
            },
    {
        proof {
            assert(key@.skip(0) =~= key@);
        }
        self.root.get(key, 0)
    }

    /// Count invariant: the map's length equals the number of distinct
    /// keys it stores, and is zero exactly when the map is empty.
    pub proof fn lemma_len_is_key_count(self)
        requires
            self.wf(),
        ensures
            self@.dom().finite(),
            self@.dom().len() == self.spec_len(),
            self.spec_len() == 0 <==> self@ == Map::<Seq<u8>, V>::empty(),
    {
        lemma_trie_count_is_card(self.root);
        assert(self@.dom() =~= trie_keys(self.root));
        if self.spec_len() == 0 {
            lemma_set_empty_equivalency_len(self@.dom());
            assert(self@ =~= Map::<Seq<u8>, V>::empty());
        }
        if self@ == Map::<Seq<u8>, V>::empty() {
            assert(self@.dom() =~= Set::<Seq<u8>>::empty());
        }
    }

    /// Builds a map from a list of (key, value) pairs by repeated
    /// insertion: for equal keys the later entry wins.
    pub fn from_entries(entries: Vec<(Vec<u8>, V)>) -> (m: TrieMap<V>)
        ensures
            m.wf(),
            m@ == map_of_entries(entries_view(entries@)),
            m.spec_len() <= entries@.len(),
    {
        let ghost s0 = entries@;
        let mut rest = entries;
        let total: usize = rest.len();
        proof {
            assert(s0.len() == total);
        }
        let mut m = TrieMap::new();
        proof {
            assert(entries_view(s0.subrange(0, 0)) =~= Seq::<(Seq<u8>, V)>::empty());
        }
        while rest.len() > 0
        invariant
            m.wf(),
            rest@.len() <= s0.len(),
            rest@ == s0.skip(s0.len() - rest@.len()),
            m@ == map_of_entries(entries_view(s0.subrange(0, s0.len() - rest@.len()))),
            m.spec_len() + rest@.len() <= s0.len(),
            s0.len() <= usize::MAX,
        decreases rest@.len(),
        {
            let ghost i = s0.len() - rest@.len();
            let (k, v) = rest.remove(0);
            proof {
                assert(s0[i] == (k, v));
                assert(rest@ =~= s0.skip(i + 1));
            }
            m.insert(k.as_slice(), v);
            proof {
                let done = entries_view(s0.subrange(0, i + 1));
                assert(done.len() == i + 1);
                assert(s0.subrange(0, i + 1)[i] == s0[i]);
                assert(done[i] == (s0[i].0@, s0[i].1));
                assert(done.last() == (k@, v));
                assert(done.drop_last() =~= entries_view(s0.subrange(0, i)));
                assert(m@ == map_of_entries(done));
            }
        }
        proof {
            assert(s0.subrange(0, s0.len() as int) =~= s0);
        }
        m
    }
}

impl<V> View for TrieMap<V> {
    type V = Map<Seq<u8>, V>;

    open spec fn view(&self) -> Map<Seq<u8>, V> {
        self.as_map()
    }
}

} // verus!
