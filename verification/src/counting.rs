//! The count invariant: the number of occupied value slots of a
//! well-formed subtree equals the number of distinct keys it stores.

use vstd::prelude::*;

use vstd::relations::injective_on;
use vstd::set_lib::lemma_map_size;
use vstd::set_lib::lemma_set_disjoint_lens;

use crate::node::Node;
use crate::node::TrieNode;
use crate::node::node_get;
use crate::node::trie_get;
use crate::node::children_get;
use crate::node::chain_get;
use crate::node::node_count;
use crate::node::trie_count;
use crate::node::children_count;
use crate::node::chain_count;
use crate::node::node_wf;
use crate::node::trie_wf;
use crate::node::children_wf;
use crate::node::children_sorted;
use crate::node_lemmas::lemma_children_get_absent;

verus! {

/// The keys stored in the subtree rooted at `n`.
pub(crate) open spec fn node_keys<V>(n: Node<V>) -> Set<Seq<u8>> {
    Set::new(|k: Seq<u8>| node_get(n, k) is Some)
}

/// The keys stored below a branching node.
pub(crate) open spec fn trie_keys<V>(t: TrieNode<V>) -> Set<Seq<u8>> {
    Set::new(|k: Seq<u8>| trie_get(t, k) is Some)
}

/// The keys reached through a children list.
pub(crate) open spec fn children_keys<V>(cs: Seq<(u8, Node<V>)>) -> Set<Seq<u8>> {
    Set::new(|k: Seq<u8>| k.len() > 0 && children_get(cs, k[0], k.skip(1)) is Some)
}

/// The keys stored in a compressed run with bytes `s`, value slot `v` and
/// continuation `c`.
pub(crate) open spec fn chain_keys<V>(s: Seq<u8>, v: Option<V>, c: Option<Box<Node<V>>>) -> Set<
    Seq<u8>,
> {
    Set::new(|k: Seq<u8>| chain_get(s, v, c, k) is Some)
}

/// Every key of `keys`, put behind the byte-string prefix `p`.
pub(crate) open spec fn behind_prefix(p: Seq<u8>, keys: Set<Seq<u8>>) -> Set<Seq<u8>> {
    keys.map(|k: Seq<u8>| p + k)
}

/// Putting keys behind a prefix renames them one for one.
proof fn lemma_behind_prefix_card(p: Seq<u8>, keys: Set<Seq<u8>>)
    requires
        keys.finite(),
    ensures
        behind_prefix(p, keys).finite(),
        behind_prefix(p, keys).len() == keys.len(),
        forall|k: Seq<u8>| #[trigger] behind_prefix(p, keys).contains(k) <==> (p.is_prefix_of(k)
            && keys.contains(k.skip(p.len() as int))),
{
    let f = |k: Seq<u8>| p + k;
    assert forall|x1: Seq<u8>, x2: Seq<u8>|
        keys.contains(x1) && keys.contains(x2) && #[trigger] f(x1) == #[trigger] f(
            x2,
        ) implies x1 == x2 by {
        assert((p + x1).skip(p.len() as int) =~= x1);
        assert((p + x2).skip(p.len() as int) =~= x2);
    }
    assert(injective_on(f, keys));
    lemma_map_size(keys, keys.map(f), f);
    assert forall|k: Seq<u8>| #[trigger] behind_prefix(p, keys).contains(k) <==> (p.is_prefix_of(k)
        && keys.contains(k.skip(p.len() as int))) by {
        if p.is_prefix_of(k) && keys.contains(k.skip(p.len() as int)) {
            let k2 = k.skip(p.len() as int);
            assert(p + k2 =~= k);
            assert(keys.contains(k2) && k == f(k2));
        }
        if behind_prefix(p, keys).contains(k) {
            let k2 = choose|x: Seq<u8>| keys.contains(x) && k == f(x);
            assert(k == p + k2);
            assert(p =~= k.subrange(0, p.len() as int));
            assert(k.skip(p.len() as int) =~= k2);
        }
    }
}

pub(crate) proof fn lemma_node_count_is_card<V>(n: Node<V>)
    requires
        node_wf(n),
    ensures
        node_keys(n).finite(),
        node_keys(n).len() == node_count(n),
    decreases n,
{
    match n {
        Node::Trie(t) => {
            lemma_trie_count_is_card(t);
            assert(node_keys(n) =~= trie_keys(t));
        },
        Node::Prefix(p) => {
            lemma_chain_count_is_card(p.key@, p.value, p.child);
            assert(node_keys(n) =~= chain_keys(p.key@, p.value, p.child));
        },
    }
}

pub(crate) proof fn lemma_trie_count_is_card<V>(t: TrieNode<V>)
    requires
        trie_wf(t),
    ensures
        trie_keys(t).finite(),
        trie_keys(t).len() == trie_count(t),
    decreases t,
{
    lemma_children_count_is_card(t.children@);
    let ck = children_keys(t.children@);
    if t.value is Some {
        assert(!ck.contains(Seq::<u8>::empty()));
        assert forall|k: Seq<u8>| #[trigger] trie_keys(t).contains(k) <==> ck.insert(
            Seq::<u8>::empty(),
        ).contains(k) by {
            if k.len() == 0 {
                assert(k =~= Seq::<u8>::empty());
            }
        }
        assert(trie_keys(t) =~= ck.insert(Seq::<u8>::empty()));
    } else {
        assert(trie_keys(t) =~= ck);
    }
}

pub(crate) proof fn lemma_children_count_is_card<V>(cs: Seq<(u8, Node<V>)>)
    requires
        children_sorted(cs),
        children_wf(cs),
    ensures
        children_keys(cs).finite(),
        children_keys(cs).len() == children_count(cs),
    decreases cs,
{
    if cs.len() == 0 {
        assert(children_keys(cs) =~= Set::<Seq<u8>>::empty());
    } else {
        let b = cs[0].0;
        let head = cs[0].1;
        let tail = cs.skip(1);
        assert(forall|j: int| 0 <= j < tail.len() ==> tail[j] == cs[j + 1]);
        lemma_children_count_is_card(tail);
        lemma_node_count_is_card(head);
        let a = behind_prefix(seq![b], node_keys(head));
        lemma_behind_prefix_card(seq![b], node_keys(head));
        assert forall|k: Seq<u8>| #[trigger] children_keys(cs).contains(k) <==> (a + children_keys(
            tail,
        )).contains(k) by {
            if k.len() > 0 {
                if k[0] == b {
                    assert(seq![b].is_prefix_of(k)) by {
                        assert(seq![b] =~= k.subrange(0, 1));
                    }
                    assert(k.skip(seq![b].len() as int) == k.skip(1));
                    lemma_children_get_absent(tail, b, k.skip(1));
                } else {
                    assert(!seq![b].is_prefix_of(k)) by {
                        if seq![b].is_prefix_of(k) {
                            assert(seq![b][0] == k.subrange(0, 1)[0]);
                        }
                    }
                }
            }
        }
        assert(children_keys(cs) =~= a + children_keys(tail));
        assert forall|k: Seq<u8>| a.contains(k) implies !children_keys(tail).contains(k) by {
            assert(seq![b].is_prefix_of(k));
            assert(k[0] == b);
            lemma_children_get_absent(tail, b, k.skip(1));
        }
        assert(a.disjoint(children_keys(tail)));
        lemma_set_disjoint_lens(a, children_keys(tail));
    }
}

pub(crate) proof fn lemma_chain_count_is_card<V>(s: Seq<u8>, v: Option<V>, c: Option<
    Box<Node<V>>,
>)
    requires
        match c {
            Some(cn) => node_wf(*cn) && node_get(*cn, Seq::empty()) is None,
            None => true,
        },
    ensures
        chain_keys(s, v, c).finite(),
        chain_keys(s, v, c).len() == chain_count(v, c),
    decreases c,
{
    assert(s.is_prefix_of(s));
    match c {
        None => {
            if v is Some {
                assert forall|k: Seq<u8>| #[trigger] chain_keys(s, v, c).contains(k) <==> k
                    == s by {
                    if s.is_prefix_of(k) && k.len() == s.len() {
                        assert(k =~= s);
                    }
                }
                assert(chain_keys(s, v, c) =~= Set::<Seq<u8>>::empty().insert(s));
            } else {
                assert(chain_keys(s, v, c) =~= Set::<Seq<u8>>::empty());
            }
        },
        Some(cn) => {
            lemma_node_count_is_card(*cn);
            let a = behind_prefix(s, node_keys(*cn));
            lemma_behind_prefix_card(s, node_keys(*cn));
            let base = if v is Some {
                Set::<Seq<u8>>::empty().insert(s)
            } else {
                Set::<Seq<u8>>::empty()
            };
            assert forall|k: Seq<u8>| #[trigger] chain_keys(s, v, c).contains(k) <==> (base
                + a).contains(k) by {
                if s.is_prefix_of(k) {
                    if k.len() == s.len() {
                        assert(k =~= s);
                        assert(k.skip(s.len() as int) =~= Seq::<u8>::empty());
                    }
                }
            }
            assert(chain_keys(s, v, c) =~= base + a);
            assert forall|k: Seq<u8>| base.contains(k) implies !a.contains(k) by {
                assert(k == s);
                assert(k.skip(s.len() as int) =~= Seq::<u8>::empty());
            }
            assert(base.disjoint(a));
            lemma_set_disjoint_lens(base, a);
        },
    }
}

} // verus!
