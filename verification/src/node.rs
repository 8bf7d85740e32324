//! The two node shapes of the burst trie, and the mathematical model of
//! what a subtree stores: a partial function from byte-string suffixes to
//! values, together with a count of the occupied value slots.

use vstd::prelude::*;

verus! {

/// A node is either a byte-indexed branching node or a compressed run.
#[derive(Debug)]
pub(crate) enum Node<V> {
    Trie(TrieNode<V>),
    Prefix(PrefixNode<V>),
}

/// A branching node: dispatches on the next byte of the key through an
/// ordered association list (bytes strictly ascending, hence unique).
/// `value` is occupied iff some stored key ends exactly here.
#[derive(Debug)]
pub(crate) struct TrieNode<V> {
    pub(crate) children: Vec<(u8, Node<V>)>,
    pub(crate) value: Option<V>,
}

/// A compressed run: represents `key` consecutive bytes with no branching.
/// `value` is occupied iff some stored key ends exactly at the end of the
/// run; `child` is the single continuation past the run, if any.
#[derive(Debug)]
pub(crate) struct PrefixNode<V> {
    pub(crate) key: Vec<u8>,
    pub(crate) value: Option<V>,
    pub(crate) child: Option<Box<Node<V>>>,
}

/// The value stored under suffix `k` in the subtree rooted at `n`, if any.
pub(crate) open spec fn node_get<V>(n: Node<V>, k: Seq<u8>) -> Option<V>
    decreases n,
{
    match n {
        Node::Trie(t) => trie_get(t, k),
        Node::Prefix(p) => prefix_get(p, k),
    }
}

/// Lookup in a branching node: the empty suffix reads the node's own
/// value slot; otherwise the first byte selects a child.
pub(crate) open spec fn trie_get<V>(t: TrieNode<V>, k: Seq<u8>) -> Option<V>
    decreases t,
{
    if k.len() == 0 {
        t.value
    } else {
        children_get(t.children@, k[0], k.skip(1))
    }
}

/// Lookup among the children of a branching node: find the entry labelled
/// `b` and continue with the rest of the suffix.
pub(crate) open spec fn children_get<V>(cs: Seq<(u8, Node<V>)>, b: u8, rest: Seq<u8>) -> Option<V>
    decreases cs,
{
    if cs.len() == 0 {
        None
    } else if cs[0].0 == b {
        node_get(cs[0].1, rest)
    } else {
        children_get(cs.skip(1), b, rest)
    }
}

/// Lookup in a compressed run with key `s`, value slot `v` and
/// continuation `c`: the run's bytes must be a prefix of the suffix; an
/// exact match reads the value slot, a longer suffix continues in `c`.
pub(crate) open spec fn chain_get<V>(s: Seq<u8>, v: Option<V>, c: Option<Box<Node<V>>>, k: Seq<u8>) -> Option<V>
    decreases c,
{
    if s.is_prefix_of(k) {
        if k.len() == s.len() {
            v
        } else {
            match c {
                Some(n) => node_get(*n, k.skip(s.len() as int)),
                None => None,
            }
        }
    } else {
        None
    }
}

pub(crate) open spec fn prefix_get<V>(p: PrefixNode<V>, k: Seq<u8>) -> Option<V>
    decreases p,
{
    chain_get(p.key@, p.value, p.child, k)
}

pub(crate) open spec fn opt_count<V>(v: Option<V>) -> nat {
    if v is Some {
        1
    } else {
        0
    }
}

/// How many occupied value slots (that is, stored keys) the subtree holds.
pub(crate) open spec fn node_count<V>(n: Node<V>) -> nat
    decreases n,
{
    match n {
        Node::Trie(t) => trie_count(t),
        Node::Prefix(p) => prefix_count(p),
    }
}

pub(crate) open spec fn trie_count<V>(t: TrieNode<V>) -> nat
    decreases t,
{
    opt_count(t.value) + children_count(t.children@)
}

pub(crate) open spec fn children_count<V>(cs: Seq<(u8, Node<V>)>) -> nat
    decreases cs,
{
    if cs.len() == 0 {
        0
    } else {
        node_count(cs[0].1) + children_count(cs.skip(1))
    }
}

/// Keys stored in a compressed run with value slot `v` and continuation `c`.
pub(crate) open spec fn chain_count<V>(v: Option<V>, c: Option<Box<Node<V>>>) -> nat
    decreases c,
{
    opt_count(v) + match c {
        Some(n) => node_count(*n),
        None => 0,
    }
}

pub(crate) open spec fn prefix_count<V>(p: PrefixNode<V>) -> nat
    decreases p,
{
    chain_count(p.value, p.child)
}

/// The bytes labelling a branching node's children are strictly ascending.
pub(crate) open spec fn children_sorted<V>(cs: Seq<(u8, Node<V>)>) -> bool {
    forall|i: int, j: int| 0 <= i < j < cs.len() ==> cs[i].0 < cs[j].0
}

/// Well-formedness of a subtree: children are sorted and well-formed,
/// every compressed run holds at least one of a value or a continuation,
/// and no continuation of a run stores the empty suffix (a key ending
/// exactly at the end of a run sits in the run's own value slot).
pub(crate) open spec fn node_wf<V>(n: Node<V>) -> bool
    decreases n,
{
    match n {
        Node::Trie(t) => trie_wf(t),
        Node::Prefix(p) => prefix_wf(p),
    }
}

pub(crate) open spec fn trie_wf<V>(t: TrieNode<V>) -> bool
    decreases t,
{
    children_sorted(t.children@) && children_wf(t.children@)
}

pub(crate) open spec fn children_wf<V>(cs: Seq<(u8, Node<V>)>) -> bool
    decreases cs,
{
    if cs.len() == 0 {
        true
    } else {
        node_wf(cs[0].1) && children_wf(cs.skip(1))
    }
}

pub(crate) open spec fn prefix_wf<V>(p: PrefixNode<V>) -> bool
    decreases p,
{
    &&& (p.value is Some || p.child is Some)
    &&& match p.child {
        Some(c) => node_wf(*c) && node_get(*c, Seq::empty()) is None,
        None => true,
    }
}

} // verus!
