use crate::node::{lemma_lookup_some_prefix, lemma_stores_a_key, Node};
use vstd::prelude::*;

verus! {

/// The keys `k1` and `k2` part at `p`: both run through `p` and go on with
/// different bytes.
pub open spec fn parts_at(p: Seq<u8>, k1: Seq<u8>, k2: Seq<u8>) -> bool {
    &&& p.is_prefix_of(k1)
    &&& p.is_prefix_of(k2)
    &&& k1.len() > p.len()
    &&& k2.len() > p.len()
    &&& k1[p.len() as int] != k2[p.len() as int]
}

/// Two keys of `m` part at `p`.
pub open spec fn is_fork<Data>(m: Map<Seq<u8>, Data>, p: Seq<u8>) -> bool {
    exists|k1: Seq<u8>, k2: Seq<u8>|
        m.contains_key(k1) && m.contains_key(k2) && #[trigger] parts_at(p, k1, k2)
}

/// The places where a compressed trie that stores `m` has a node: at each
/// key and at each fork, and nowhere else.
pub open spec fn node_paths<Data>(m: Map<Seq<u8>, Data>) -> Set<Seq<u8>> {
    Set::new(|p: Seq<u8>| m.contains_key(p) || is_fork(m, p))
}

/// The byte strings of `s`, each with `label` in front.
pub(crate) open spec fn shifted(label: Seq<u8>, s: Set<Seq<u8>>) -> Set<Seq<u8>> {
    Set::new(|p: Seq<u8>| label.is_prefix_of(p) && s.contains(p.skip(label.len() as int)))
}

/// Putting a label in front of each member changes no count.
pub(crate) proof fn lemma_shifted_len(label: Seq<u8>, s: Set<Seq<u8>>)
    requires
        s.finite(),
    ensures
        shifted(label, s).finite(),
        shifted(label, s).len() == s.len(),
    decreases s.len(),
{
    if s.len() == 0 {
        s.lemma_len0_is_empty();
        assert(shifted(label, s) =~= Set::empty());
    } else {
        let x = s.choose();
        let fewer = s.remove(x);
        lemma_shifted_len(label, fewer);
        let y = label + x;
        assert(y.skip(label.len() as int) =~= x);
        assert(label =~= y.subrange(0, label.len() as int));
        assert forall|p: Seq<u8>| shifted(label, s).contains(p) == shifted(label, fewer).insert(
            y,
        ).contains(p) by {
            if label.is_prefix_of(p) && p.skip(label.len() as int) == x {
                assert(p =~= label + p.skip(label.len() as int));
            }
        }
        assert(shifted(label, s) =~= shifted(label, fewer).insert(y));
    }
}

/// A key of a child is a key of its parent, with the parent's label in
/// front.
pub(crate) proof fn lemma_key_lifts<Data>(node: Node<Data>, b: u8, t: Seq<u8>)
    requires
        node.kids_wf(),
        node.kids().contains_key(b),
        node.kids()[b].lookup(t) is Some,
    ensures
        node.lookup(node.val@ + t) == node.kids()[b].lookup(t),
        t.len() > 0,
        t[0] == b,
        node.routes_to(node.val@ + t, b),
{
    let kid = node.kids()[b];
    let k = node.val@ + t;
    lemma_lookup_some_prefix(kid, t);
    assert(kid.val@[0] == t.subrange(0, kid.val@.len() as int)[0]);
    assert(node.val@ =~= k.subrange(0, node.val@.len() as int));
    assert(k.skip(node.val@.len() as int) =~= t);
    node.lemma_lookup_routes(k, b);
}

/// A key of a node other than its label is, past the label, a key of the
/// child that it routes to.
pub(crate) proof fn lemma_key_lowers<Data>(node: Node<Data>, k: Seq<u8>)
    requires
        node.lookup(k) is Some,
        k != node.val@,
    ensures
        k.len() > node.val@.len(),
        node.val@.is_prefix_of(k),
        node.kids().contains_key(k[node.val@.len() as int]),
        node.kids()[k[node.val@.len() as int]].lookup(k.skip(node.val@.len() as int))
            == node.lookup(k),
{
    lemma_lookup_some_prefix(node, k);
    if k.len() == node.val@.len() {
        assert(k =~= node.val@);
    }
    assert(k.skip(node.val@.len() as int)[0] == k[node.val@.len() as int]);
}

/// Where the paths of a node lie: at its label, and past its label where
/// the child that the path routes to has a path.
pub(crate) open spec fn path_step<Data>(node: Node<Data>, p: Seq<u8>) -> bool {
    let n = node.val@.len() as int;
    ||| p == node.val@
    ||| {
        &&& node.val@.is_prefix_of(p)
        &&& p.len() > n
        &&& node.kids().contains_key(p[n])
        &&& node_paths(node.kids()[p[n]].as_map()).contains(p.skip(n))
    }
}

/// A byte string with `label` in front starts with `label`, and goes on as
/// itself.
pub(crate) proof fn lemma_concat_parts(label: Seq<u8>, t: Seq<u8>)
    ensures
        label.is_prefix_of(label + t),
        (label + t).skip(label.len() as int) == t,
        t.len() > 0 ==> (label + t)[label.len() as int] == t[0],
{
    let k = label + t;
    assert(label =~= k.subrange(0, label.len() as int));
    assert(k.skip(label.len() as int) =~= t);
}

/// The label of a node in shape is one of its paths.
pub(crate) proof fn lemma_label_is_path<Data>(node: Node<Data>)
    requires
        node.inner_wf(),
    ensures
        node_paths(node.as_map()).contains(node.val@),
{
    if node.data is None {
        let dom = node.kids().dom();
        let b1 = dom.choose();
        assert(dom.contains(b1)) by {
            if dom =~= Set::empty() {
                assert(dom.len() == 0);
            }
        }
        let others = dom.remove(b1);
        assert(others.len() >= 1);
        let b2 = others.choose();
        assert(others.contains(b2)) by {
            if others =~= Set::empty() {
                assert(others.len() == 0);
            }
        }
        assert(node.kids().contains_key(b1));
        assert(node.kids().contains_key(b2));
        let t1 = lemma_stores_a_key(node.kids()[b1]);
        let t2 = lemma_stores_a_key(node.kids()[b2]);
        lemma_key_lifts(node, b1, t1);
        lemma_key_lifts(node, b2, t2);
        lemma_concat_parts(node.val@, t1);
        lemma_concat_parts(node.val@, t2);
        let k1 = node.val@ + t1;
        let k2 = node.val@ + t2;
        assert(node.as_map().contains_key(k1));
        assert(node.as_map().contains_key(k2));
        assert(parts_at(node.val@, k1, k2));
    }
}

/// A path of a child is, with the parent's label in front, a path of the
/// parent.
pub(crate) proof fn lemma_path_lifts<Data>(node: Node<Data>, b: u8, q: Seq<u8>)
    requires
        node.kids_wf(),
        node.kids().contains_key(b),
        node_paths(node.kids()[b].as_map()).contains(q),
    ensures
        node_paths(node.as_map()).contains(node.val@ + q),
{
    let kid = node.kids()[b];
    let label = node.val@;
    if kid.lookup(q) is Some {
        lemma_key_lifts(node, b, q);
        assert(node.as_map().contains_key(label + q));
    } else {
        let (t1, t2) = choose|t1: Seq<u8>, t2: Seq<u8>|
            kid.as_map().contains_key(t1) && kid.as_map().contains_key(t2) && #[trigger] parts_at(
                q,
                t1,
                t2,
            );
        lemma_key_lifts(node, b, t1);
        lemma_key_lifts(node, b, t2);
        let k1 = label + t1;
        let k2 = label + t2;
        let p = label + q;
        assert(node.as_map().contains_key(k1));
        assert(node.as_map().contains_key(k2));
        assert(p =~= k1.subrange(0, p.len() as int)) by {
            assert(q =~= t1.subrange(0, q.len() as int));
            assert forall|i: int| 0 <= i < p.len() implies p[i] == k1[i] by {
                if i >= label.len() {
                    assert(q[i - label.len()] == t1.subrange(0, q.len() as int)[i - label.len()]);
                }
            }
        }
        assert(p =~= k2.subrange(0, p.len() as int)) by {
            assert(q =~= t2.subrange(0, q.len() as int));
            assert forall|i: int| 0 <= i < p.len() implies p[i] == k2[i] by {
                if i >= label.len() {
                    assert(q[i - label.len()] == t2.subrange(0, q.len() as int)[i - label.len()]);
                }
            }
        }
        assert(parts_at(p, k1, k2));
    }
}

/// A path of a node other than its label runs through the label and is,
/// past it, a path of the child that it routes to.
pub(crate) proof fn lemma_path_lowers<Data>(node: Node<Data>, p: Seq<u8>)
    requires
        node_paths(node.as_map()).contains(p),
        p != node.val@,
    ensures
        path_step(node, p),
{
    let label = node.val@;
    let n = label.len() as int;
    if node.lookup(p) is Some {
        lemma_key_lowers(node, p);
        assert(node.kids()[p[n]].as_map().contains_key(p.skip(n)));
    } else {
        let (k1, k2) = choose|k1: Seq<u8>, k2: Seq<u8>|
            node.as_map().contains_key(k1) && node.as_map().contains_key(k2) && #[trigger] parts_at(
                p,
                k1,
                k2,
            );
        lemma_lookup_some_prefix(node, k1);
        lemma_lookup_some_prefix(node, k2);
        assert(p =~= k1.subrange(0, p.len() as int));
        assert(p =~= k2.subrange(0, p.len() as int));
        assert(label =~= k1.subrange(0, n));
        assert(label =~= k2.subrange(0, n));
        if p.len() < n {
            assert(label[p.len() as int] == k1.subrange(0, n)[p.len() as int]);
            assert(label[p.len() as int] == k2.subrange(0, n)[p.len() as int]);
        }
        assert(label =~= p.subrange(0, n)) by {
            assert forall|i: int| 0 <= i < n implies label[i] == p[i] by {
                assert(label[i] == k1.subrange(0, n)[i]);
                assert(p[i] == k1.subrange(0, p.len() as int)[i]);
            }
        }
        if p.len() == n {
            assert(p =~= label);
        }
        let b = p[n];
        assert(p[n] == k1.subrange(0, p.len() as int)[n]);
        assert(p[n] == k2.subrange(0, p.len() as int)[n]);
        lemma_key_lowers(node, k1);
        lemma_key_lowers(node, k2);
        let kid = node.kids()[b];
        let q = p.skip(n);
        let t1 = k1.skip(n);
        let t2 = k2.skip(n);
        assert(kid.as_map().contains_key(t1));
        assert(kid.as_map().contains_key(t2));
        assert(q =~= t1.subrange(0, q.len() as int)) by {
            assert forall|i: int| 0 <= i < q.len() implies q[i] == t1[i] by {
                assert(p[n + i] == k1.subrange(0, p.len() as int)[n + i]);
            }
        }
        assert(q =~= t2.subrange(0, q.len() as int)) by {
            assert forall|i: int| 0 <= i < q.len() implies q[i] == t2[i] by {
                assert(p[n + i] == k2.subrange(0, p.len() as int)[n + i]);
            }
        }
        assert(parts_at(q, t1, t2));
    }
}

/// The paths of a node in shape are its label and, behind its label, the
/// paths of its children.
pub(crate) proof fn lemma_paths_step<Data>(node: Node<Data>, p: Seq<u8>)
    requires
        node.inner_wf(),
    ensures
        node_paths(node.as_map()).contains(p) == path_step(node, p),
{
    let n = node.val@.len() as int;
    if p == node.val@ {
        lemma_label_is_path(node);
    } else if node_paths(node.as_map()).contains(p) {
        lemma_path_lowers(node, p);
    } else if path_step(node, p) {
        lemma_path_lifts(node, p[n], p.skip(n));
        assert(p =~= node.val@ + p.skip(n));
    }
}

/// A path of a node runs through the node's label.
pub(crate) proof fn lemma_path_has_label<Data>(node: Node<Data>, p: Seq<u8>)
    requires
        node_paths(node.as_map()).contains(p),
    ensures
        node.val@.is_prefix_of(p),
{
    if p == node.val@ {
        assert(p =~= p.subrange(0, p.len() as int));
    } else {
        lemma_path_lowers(node, p);
    }
}

/// The paths of a node that lie at its label or route to a child keyed
/// below `n`.
pub(crate) open spec fn paths_below<Data>(node: Node<Data>, n: nat) -> Set<Seq<u8>> {
    Set::new(
        |p: Seq<u8>|
            path_step(node, p) && (p == node.val@ || p[node.val@.len() as int] < n),
    )
}

/// A node in shape has as many paths as it has nodes at and below it.
pub(crate) proof fn lemma_paths_count<Data>(node: Node<Data>)
    requires
        node.inner_wf(),
    ensures
        node_paths(node.as_map()).finite(),
        node_paths(node.as_map()).len() == node.count(),
    decreases node, 257nat,
{
    lemma_paths_below_count(node, 256);
    assert forall|p: Seq<u8>| node_paths(node.as_map()).contains(p) == paths_below(
        node,
        256,
    ).contains(p) by {
        lemma_paths_step(node, p);
    }
    assert(node_paths(node.as_map()) =~= paths_below(node, 256));
}

/// The paths at the label of a node in shape and behind it under the
/// children keyed below `n` are as many as the nodes there.
pub(crate) proof fn lemma_paths_below_count<Data>(node: Node<Data>, n: nat)
    requires
        node.inner_wf(),
        n <= 256,
    ensures
        paths_below(node, n).finite(),
        paths_below(node, n).len() == 1 + node.count_below(n),
    decreases node, n,
{
    let label = node.val@;
    let len = label.len() as int;
    if n == 0 {
        assert(paths_below(node, 0) =~= set![label]);
    } else {
        let b = (n - 1) as u8;
        let fewer = paths_below(node, (n - 1) as nat);
        lemma_paths_below_count(node, (n - 1) as nat);
        if node.kids().contains_key(b) {
            let kid = node.kids()[b];
            lemma_paths_count(kid);
            let behind = shifted(label, node_paths(kid.as_map()));
            lemma_shifted_len(label, node_paths(kid.as_map()));
            assert forall|p: Seq<u8>| behind.contains(p) implies p.len() > len && p[len] == b by {
                let q = p.skip(len);
                lemma_path_has_label(kid, q);
                assert(kid.val@[0] == q.subrange(0, kid.val@.len() as int)[0]);
                assert(q[0] == p[len]);
            }
            assert forall|p: Seq<u8>| paths_below(node, n).contains(p) == (fewer.contains(p)
                || behind.contains(p)) by {
                if behind.contains(p) {
                    assert(p.len() > len && p[len] == b);
                }
            }
            assert(paths_below(node, n) =~= fewer + behind);
            assert(fewer.disjoint(behind)) by {
                assert forall|p: Seq<u8>| !(fewer.contains(p) && behind.contains(p)) by {
                    if behind.contains(p) {
                        assert(p.len() > len && p[len] == b);
                        if p == label {
                        }
                    }
                }
            }
            vstd::set_lib::lemma_set_disjoint_lens(fewer, behind);
        } else {
            assert(paths_below(node, n) =~= fewer);
        }
    }
}

} // verus!
