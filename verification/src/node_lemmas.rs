//! Inductive facts about the children list of a branching node: how
//! lookup, key count and well-formedness behave when a child is read,
//! replaced (same byte) or inserted (fresh byte).

use vstd::prelude::*;

use crate::node::Node;
use crate::node::chain_get;
use crate::node::children_get;
use crate::node::children_count;
use crate::node::children_wf;
use crate::node::children_sorted;
use crate::node::node_get;
use crate::node::node_count;
use crate::node::node_wf;

verus! {

/// Every child of a well-formed children list is itself well-formed.
pub(crate) proof fn lemma_children_wf_index<V>(cs: Seq<(u8, Node<V>)>, i: int)
    requires
        children_wf(cs),
        0 <= i < cs.len(),
    ensures
        node_wf(cs[i].1),
    decreases cs.len(),
{
    if i > 0 {
        lemma_children_wf_index(cs.skip(1), i - 1);
    }
}

/// A byte no child is labelled with finds nothing.
pub(crate) proof fn lemma_children_get_absent<V>(cs: Seq<(u8, Node<V>)>, b: u8, rest: Seq<u8>)
    requires
        forall|j: int| 0 <= j < cs.len() ==> cs[j].0 != b,
    ensures
        children_get(cs, b, rest) is None,
    decreases cs.len(),
{
    if cs.len() > 0 {
        lemma_children_get_absent(cs.skip(1), b, rest);
    }
}

/// Lookup of byte `b` reaches the first child labelled `b`.
pub(crate) proof fn lemma_children_get_at<V>(cs: Seq<(u8, Node<V>)>, i: int, rest: Seq<u8>)
    requires
        0 <= i < cs.len(),
        forall|j: int| 0 <= j < i ==> cs[j].0 != cs[i].0,
    ensures
        children_get(cs, cs[i].0, rest) == node_get(cs[i].1, rest),
    decreases cs.len(),
{
    if i > 0 {
        assert(cs.skip(1)[i - 1] == cs[i]);
        lemma_children_get_at(cs.skip(1), i - 1, rest);
    }
}

/// Replacing the child at `i` (keeping its byte) changes lookup only at
/// that byte.
pub(crate) proof fn lemma_children_get_update<V>(
    cs: Seq<(u8, Node<V>)>,
    i: int,
    n2: Node<V>,
    b: u8,
    rest: Seq<u8>,
)
    requires
        0 <= i < cs.len(),
        forall|j: int| 0 <= j < cs.len() && j != i ==> cs[j].0 != cs[i].0,
    ensures
        children_get(cs.update(i, (cs[i].0, n2)), b, rest) == (if b == cs[i].0 {
            node_get(n2, rest)
        } else {
            children_get(cs, b, rest)
        }),
    decreases cs.len(),
{
    let cs2 = cs.update(i, (cs[i].0, n2));
    if i == 0 {
        assert(cs2[0] == (cs[0].0, n2));
        assert(cs2.skip(1) =~= cs.skip(1));
    } else {
        assert(cs2[0] == cs[0]);
        assert(cs2.skip(1) =~= cs.skip(1).update(i - 1, (cs.skip(1)[i - 1].0, n2)));
        lemma_children_get_update(cs.skip(1), i - 1, n2, b, rest);
    }
}

/// Replacing the child at `i` replaces exactly its contribution to the
/// key count.
pub(crate) proof fn lemma_children_count_update<V>(cs: Seq<(u8, Node<V>)>, i: int, n2: Node<V>)
    requires
        0 <= i < cs.len(),
    ensures
        children_count(cs.update(i, (cs[i].0, n2))) + node_count(cs[i].1) == children_count(cs)
            + node_count(n2),
    decreases cs.len(),
{
    let cs2 = cs.update(i, (cs[i].0, n2));
    if i == 0 {
        assert(cs2[0] == (cs[0].0, n2));
        assert(cs2.skip(1) =~= cs.skip(1));
    } else {
        assert(cs2[0] == cs[0]);
        assert(cs2.skip(1) =~= cs.skip(1).update(i - 1, (cs.skip(1)[i - 1].0, n2)));
        lemma_children_count_update(cs.skip(1), i - 1, n2);
    }
}

/// Replacing a child with a well-formed node keeps the list well-formed.
pub(crate) proof fn lemma_children_wf_update<V>(cs: Seq<(u8, Node<V>)>, i: int, n2: Node<V>)
    requires
        0 <= i < cs.len(),
        children_wf(cs),
        node_wf(n2),
    ensures
        children_wf(cs.update(i, (cs[i].0, n2))),
    decreases cs.len(),
{
    let cs2 = cs.update(i, (cs[i].0, n2));
    if i == 0 {
        assert(cs2[0] == (cs[0].0, n2));
        assert(cs2.skip(1) =~= cs.skip(1));
    } else {
        assert(cs2[0] == cs[0]);
        assert(cs2.skip(1) =~= cs.skip(1).update(i - 1, (cs.skip(1)[i - 1].0, n2)));
        lemma_children_wf_update(cs.skip(1), i - 1, n2);
    }
}

/// Inserting a child labelled with a fresh byte adds exactly that child's
/// lookups and leaves every other byte's lookup unchanged.
pub(crate) proof fn lemma_children_insert_get<V>(
    cs: Seq<(u8, Node<V>)>,
    i: int,
    b: u8,
    n: Node<V>,
    b2: u8,
    rest: Seq<u8>,
)
    requires
        0 <= i <= cs.len(),
        forall|j: int| 0 <= j < cs.len() ==> cs[j].0 != b,
    ensures
        children_get(cs.insert(i, (b, n)), b2, rest) == (if b2 == b {
            node_get(n, rest)
        } else {
            children_get(cs, b2, rest)
        }),
    decreases cs.len(),
{
    let cs2 = cs.insert(i, (b, n));
    if i == 0 {
        assert(cs2[0] == (b, n));
        assert(cs2.skip(1) =~= cs);
        if b2 == b {
        } else {
            if cs.len() > 0 {
                assert(cs2[0].0 != b2);
            }
        }
    } else {
        assert(cs2[0] == cs[0]);
        assert(cs2.skip(1) =~= cs.skip(1).insert(i - 1, (b, n)));
        lemma_children_insert_get(cs.skip(1), i - 1, b, n, b2, rest);
        if b2 == b {
            assert(cs[0].0 != b);
        }
    }
}

/// Inserting a child adds exactly its key count.
pub(crate) proof fn lemma_children_insert_count<V>(cs: Seq<(u8, Node<V>)>, i: int, b: u8, n: Node<V>)
    requires
        0 <= i <= cs.len(),
    ensures
        children_count(cs.insert(i, (b, n))) == children_count(cs) + node_count(n),
    decreases cs.len(),
{
    let cs2 = cs.insert(i, (b, n));
    if i == 0 {
        assert(cs2[0] == (b, n));
        assert(cs2.skip(1) =~= cs);
    } else {
        assert(cs2[0] == cs[0]);
        assert(cs2.skip(1) =~= cs.skip(1).insert(i - 1, (b, n)));
        lemma_children_insert_count(cs.skip(1), i - 1, b, n);
    }
}

/// Inserting a well-formed child keeps the list well-formed.
pub(crate) proof fn lemma_children_insert_wf<V>(cs: Seq<(u8, Node<V>)>, i: int, b: u8, n: Node<V>)
    requires
        0 <= i <= cs.len(),
        children_wf(cs),
        node_wf(n),
    ensures
        children_wf(cs.insert(i, (b, n))),
    decreases cs.len(),
{
    let cs2 = cs.insert(i, (b, n));
    if i == 0 {
        assert(cs2[0] == (b, n));
        assert(cs2.skip(1) =~= cs);
    } else {
        assert(cs2[0] == cs[0]);
        assert(cs2.skip(1) =~= cs.skip(1).insert(i - 1, (b, n)));
        lemma_children_insert_wf(cs.skip(1), i - 1, b, n);
    }
}

/// Dropping a common prefix from both the run's bytes and the key leaves
/// the run lookup unchanged.
pub(crate) proof fn lemma_chain_get_unprefix<V>(
    s: Seq<u8>,
    v: Option<V>,
    c: Option<Box<Node<V>>>,
    p: Seq<u8>,
    k: Seq<u8>,
)
    requires
        p.is_prefix_of(s),
        p.is_prefix_of(k),
    ensures
        chain_get(s, v, c, k) == chain_get(
            s.skip(p.len() as int),
            v,
            c,
            k.skip(p.len() as int),
        ),
{
    let n = p.len() as int;
    let s2 = s.skip(n);
    let k2 = k.skip(n);
    if s.is_prefix_of(k) {
        assert(s2.is_prefix_of(k2)) by {
            assert(s2 =~= k2.subrange(0, s2.len() as int));
        }
        assert(k.skip(s.len() as int) =~= k2.skip(s2.len() as int));
    } else {
        assert(!s2.is_prefix_of(k2)) by {
            if s2.is_prefix_of(k2) {
                assert forall|i: int| 0 <= i < s.len() implies s[i] == k[i] by {
                    if i < n {
                        assert(s[i] == p[i]);
                        assert(k[i] == p[i]);
                    } else {
                        assert(s[i] == s2[i - n]);
                        assert(s2[i - n] == k2.subrange(0, s2.len() as int)[i - n]);
                        assert(k2[i - n] == k[i]);
                    }
                }
                assert(s =~= k.subrange(0, s.len() as int));
            }
        }
    }
}

/// Two byte strings that agree on their first `n` bytes and on everything
/// after them are equal.
pub(crate) proof fn lemma_eq_from_parts(a: Seq<u8>, b: Seq<u8>, n: int)
    requires
        0 <= n <= a.len(),
        n <= b.len(),
        forall|j: int| 0 <= j < n ==> a[j] == b[j],
        a.skip(n) == b.skip(n),
    ensures
        a == b,
{
    assert(a.skip(n).len() == a.len() - n);
    assert(b.skip(n).len() == b.len() - n);
    assert(a.len() == b.len());
    assert forall|i: int| 0 <= i < a.len() implies a[i] == b[i] by {
        if i >= n {
            assert(i < b.len());
            assert(a.skip(n)[i - n] == a[i]);
            assert(b.skip(n)[i - n] == b[i]);
        }
    }
    assert(a =~= b);
}

/// A prefix of a prefix is a prefix.
pub(crate) proof fn lemma_prefix_of_prefix(p: Seq<u8>, s: Seq<u8>, k: Seq<u8>)
    requires
        p.is_prefix_of(s),
        s.is_prefix_of(k),
    ensures
        p.is_prefix_of(k),
{
    assert(p =~= k.subrange(0, p.len() as int));
}

/// Lookup and count in a two-child list, written out.
pub(crate) proof fn lemma_children_pair<V>(cs: Seq<(u8, Node<V>)>, b: u8, rest: Seq<u8>)
    requires
        cs.len() == 2,
        cs[0].0 != cs[1].0,
    ensures
        children_get(cs, b, rest) == (if b == cs[0].0 {
            node_get(cs[0].1, rest)
        } else if b == cs[1].0 {
            node_get(cs[1].1, rest)
        } else {
            None::<V>
        }),
        children_count(cs) == node_count(cs[0].1) + node_count(cs[1].1),
        node_wf(cs[0].1) && node_wf(cs[1].1) ==> children_wf(cs),
{
    let cs1 = cs.skip(1);
    assert(cs1[0] == cs[1]);
    assert(cs1.len() == 1);
    assert(cs1.skip(1).len() == 0);
    assert(children_get(cs1.skip(1), b, rest) is None);
    assert(children_get(cs1, b, rest) == (if cs1[0].0 == b {
        node_get(cs1[0].1, rest)
    } else {
        children_get(cs1.skip(1), b, rest)
    }));
    assert(children_count(cs1.skip(1)) == 0);
    assert(children_count(cs1) == node_count(cs1[0].1) + children_count(cs1.skip(1)));
    assert(children_wf(cs1.skip(1)));
    assert(children_wf(cs1) == (node_wf(cs1[0].1) && children_wf(cs1.skip(1))));
}

/// Inserting at the position the sorted order dictates keeps the bytes
/// strictly ascending.
pub(crate) proof fn lemma_children_insert_sorted<V>(cs: Seq<(u8, Node<V>)>, i: int, b: u8, n: Node<V>)
    requires
        0 <= i <= cs.len(),
        children_sorted(cs),
        forall|j: int| 0 <= j < i ==> cs[j].0 < b,
        forall|j: int| i <= j < cs.len() ==> cs[j].0 > b,
    ensures
        children_sorted(cs.insert(i, (b, n))),
{
    let cs2 = cs.insert(i, (b, n));
    assert forall|x: int, y: int| 0 <= x < y < cs2.len() implies cs2[x].0 < cs2[y].0 by {
        if x < i {
            assert(cs2[x] == cs[x]);
        } else if x > i {
            assert(cs2[x] == cs[x - 1]);
        }
        if y < i {
            assert(cs2[y] == cs[y]);
        } else if y > i {
            assert(cs2[y] == cs[y - 1]);
        }
    }
}

} // verus!
