use crate::node::{lemma_lookup_some_prefix, Node};
use vstd::prelude::*;

verus! {

// A traversal keeps a stack of frames. A frame is a subtree that is still to
// be walked, together with the bytes that lead from the root of the trie to
// the start of the subtree root's label.

/// What the subtree of `f` stores under the whole key `k`.
pub(crate) open spec fn holds<Data>(f: (Seq<u8>, Node<Data>), k: Seq<u8>) -> Option<Data> {
    if f.0.is_prefix_of(k) {
        f.1.lookup(k.skip(f.0.len() as int))
    } else {
        None
    }
}

/// `k` starts with the bytes that lead to the subtree of `f` and through the
/// label of its root.
pub(crate) open spec fn covers<Data>(f: (Seq<u8>, Node<Data>), k: Seq<u8>) -> bool {
    (f.0 + f.1.val@).is_prefix_of(k)
}

/// What the frames store under `k`: the answer of the topmost frame that has
/// one.
pub(crate) open spec fn frames_lookup<Data>(
    frames: Seq<(Seq<u8>, Node<Data>)>,
    k: Seq<u8>,
) -> Option<Data>
    decreases frames.len(),
{
    if frames.len() == 0 {
        None
    } else {
        match holds(frames.last(), k) {
            Some(d) => Some(d),
            None => frames_lookup(frames.drop_last(), k),
        }
    }
}

/// Everything that the frames store, by whole key.
pub(crate) open spec fn frames_map<Data>(frames: Seq<(Seq<u8>, Node<Data>)>) -> Map<
    Seq<u8>,
    Data,
> {
    Map::new(
        |k: Seq<u8>| frames_lookup(frames, k) is Some,
        |k: Seq<u8>| frames_lookup(frames, k)->0,
    )
}

/// Number of nodes in all the subtrees of the frames.
pub(crate) open spec fn frames_count<Data>(frames: Seq<(Seq<u8>, Node<Data>)>) -> nat
    decreases frames.len(),
{
    if frames.len() == 0 {
        0
    } else {
        frames_count(frames.drop_last()) + frames.last().1.count()
    }
}

/// The subtrees are in shape below their roots, and no two of them overlap:
/// a key that runs through the root of one frame is stored in no other.
pub(crate) open spec fn frames_wf<Data>(frames: Seq<(Seq<u8>, Node<Data>)>) -> bool {
    &&& forall|i: int| 0 <= i < frames.len() ==> (#[trigger] frames[i]).1.kids_wf()
    &&& forall|i: int, j: int, k: Seq<u8>|
        0 <= i < frames.len() && 0 <= j < frames.len() && i != j && #[trigger] covers(
            frames[i],
            k,
        ) ==> #[trigger] holds(frames[j], k) is None
}

/// `kids` lists the children of `node`, each of them once.
pub(crate) open spec fn is_kid_list<Data>(node: Node<Data>, kids: Seq<Node<Data>>) -> bool {
    &&& forall|j: int|
        0 <= j < kids.len() ==> {
            &&& (#[trigger] kids[j]).val@.len() > 0
            &&& node.kids().contains_key(kids[j].val@[0])
            &&& node.kids()[kids[j].val@[0]] == kids[j]
        }
    &&& forall|b: u8| #[trigger]
        node.kids().contains_key(b) ==> exists|j: int|
            0 <= j < kids.len() && #[trigger] kids[j] == node.kids()[b] && kids[j].val@[0] == b
    &&& forall|i: int, j: int|
        0 <= i < kids.len() && 0 <= j < kids.len() && i != j ==> (#[trigger] kids[i]).val@[0] != (
        #[trigger] kids[j]).val@[0]
}

/// The frames that take the place of the frame `top` once its root has been
/// visited: one for each child in `kids`.
pub(crate) open spec fn kid_frames<Data>(top: (Seq<u8>, Node<Data>), kids: Seq<Node<Data>>) -> Seq<
    (Seq<u8>, Node<Data>),
> {
    Seq::new(kids.len(), |j: int| (top.0 + top.1.val@, kids[j]))
}

/// Number of nodes in the subtrees of `kids`.
pub(crate) open spec fn seq_count<Data>(kids: Seq<Node<Data>>) -> nat
    decreases kids.len(),
{
    if kids.len() == 0 {
        0
    } else {
        seq_count(kids.drop_last()) + kids.last().count()
    }
}

/// Number of nodes in the subtrees of those of `kids` whose label starts
/// with a byte below `m`.
pub(crate) open spec fn seq_count_below<Data>(kids: Seq<Node<Data>>, m: nat) -> nat
    decreases kids.len(),
{
    if kids.len() == 0 {
        0
    } else {
        seq_count_below(kids.drop_last(), m) + if kids.last().val@[0] < m {
            kids.last().count()
        } else {
            0
        }
    }
}

/// A frame stores nothing but keys that run through its root.
pub(crate) proof fn lemma_holds_covers<Data>(f: (Seq<u8>, Node<Data>), k: Seq<u8>)
    requires
        holds(f, k) is Some,
    ensures
        covers(f, k),
{
    let t = k.skip(f.0.len() as int);
    lemma_lookup_some_prefix(f.1, t);
    let full = f.0 + f.1.val@;
    assert(full =~= k.subrange(0, full.len() as int)) by {
        assert(f.0 =~= k.subrange(0, f.0.len() as int));
        assert(f.1.val@ =~= t.subrange(0, f.1.val@.len() as int));
        assert forall|i: int| 0 <= i < full.len() implies full[i] == k[i] by {
            if i < f.0.len() {
                assert(f.0[i] == k.subrange(0, f.0.len() as int)[i]);
            } else {
                assert(f.1.val@[i - f.0.len()] == t.subrange(0, f.1.val@.len() as int)[i
                    - f.0.len()]);
            }
        }
    }
}

/// Where no frame stores `k`, the frames do not.
pub(crate) proof fn lemma_frames_lookup_none<Data>(
    frames: Seq<(Seq<u8>, Node<Data>)>,
    k: Seq<u8>,
)
    requires
        forall|i: int| 0 <= i < frames.len() ==> holds(#[trigger] frames[i], k) is None,
    ensures
        frames_lookup(frames, k) is None,
    decreases frames.len(),
{
    if frames.len() > 0 {
        assert(frames.last() == frames[frames.len() - 1]);
        let rest = frames.drop_last();
        assert forall|i: int| 0 <= i < rest.len() implies holds(#[trigger] rest[i], k) is None by {
            assert(rest[i] == frames[i]);
        }
        lemma_frames_lookup_none(rest, k);
    }
}

/// Where no frame but the one at `j` stores `k`, the frames answer as that
/// frame does.
pub(crate) proof fn lemma_frames_lookup_at<Data>(
    frames: Seq<(Seq<u8>, Node<Data>)>,
    k: Seq<u8>,
    j: int,
)
    requires
        0 <= j < frames.len(),
        forall|i: int| 0 <= i < frames.len() && i != j ==> holds(#[trigger] frames[i], k) is None,
    ensures
        frames_lookup(frames, k) == holds(frames[j], k),
    decreases frames.len(),
{
    let rest = frames.drop_last();
    assert(frames.last() == frames[frames.len() - 1]);
    if j == frames.len() - 1 {
        assert forall|i: int| 0 <= i < rest.len() implies holds(#[trigger] rest[i], k) is None by {
            assert(rest[i] == frames[i]);
        }
        lemma_frames_lookup_none(rest, k);
    } else {
        assert forall|i: int| 0 <= i < rest.len() && i != j implies holds(#[trigger] rest[i], k)
            is None by {
            assert(rest[i] == frames[i]);
        }
        assert(rest[j] == frames[j]);
        lemma_frames_lookup_at(rest, k, j);
    }
}

/// In frames that do not overlap, a key that one frame stores is stored by
/// the frames, with the same payload.
pub(crate) proof fn lemma_frames_lookup_of<Data>(
    frames: Seq<(Seq<u8>, Node<Data>)>,
    k: Seq<u8>,
    j: int,
)
    requires
        frames_wf(frames),
        0 <= j < frames.len(),
        holds(frames[j], k) is Some,
    ensures
        frames_lookup(frames, k) == holds(frames[j], k),
{
    lemma_holds_covers(frames[j], k);
    lemma_frames_lookup_at(frames, k, j);
}

/// Whatever the frames store under `k` is stored by one of them.
pub(crate) proof fn lemma_frames_lookup_from<Data>(
    frames: Seq<(Seq<u8>, Node<Data>)>,
    k: Seq<u8>,
) -> (j: int)
    requires
        frames_lookup(frames, k) is Some,
    ensures
        0 <= j < frames.len(),
        holds(frames[j], k) == frames_lookup(frames, k),
    decreases frames.len(),
{
    if holds(frames.last(), k) is Some {
        frames.len() - 1
    } else {
        let rest = frames.drop_last();
        let j = lemma_frames_lookup_from(rest, k);
        assert(rest[j] == frames[j]);
        j
    }
}

/// What the frame of a child stores, the frame of its parent stores too,
/// under a key that goes on past the parent's label with the child's byte.
pub(crate) proof fn lemma_kid_frame_holds<Data>(
    top: (Seq<u8>, Node<Data>),
    kid: Node<Data>,
    k: Seq<u8>,
)
    requires
        kid.val@.len() > 0,
        top.1.kids().contains_key(kid.val@[0]),
        top.1.kids()[kid.val@[0]] == kid,
        holds((top.0 + top.1.val@, kid), k) is Some,
    ensures
        holds(top, k) == holds((top.0 + top.1.val@, kid), k),
        k.len() > (top.0 + top.1.val@).len(),
        k[(top.0 + top.1.val@).len() as int] == kid.val@[0],
        covers(top, k),
{
    let full = top.0 + top.1.val@;
    let t = k.skip(full.len() as int);
    lemma_lookup_some_prefix(kid, t);
    assert(kid.val@[0] == t.subrange(0, kid.val@.len() as int)[0]);
    assert(t[0] == k[full.len() as int]);
    let s = k.skip(top.0.len() as int);
    assert(top.0 =~= k.subrange(0, top.0.len() as int)) by {
        assert(full =~= k.subrange(0, full.len() as int));
        assert forall|i: int| 0 <= i < top.0.len() implies top.0[i] == k[i] by {
            assert(full[i] == k.subrange(0, full.len() as int)[i]);
        }
    }
    assert(top.1.val@ =~= s.subrange(0, top.1.val@.len() as int)) by {
        assert forall|i: int| 0 <= i < top.1.val@.len() implies top.1.val@[i] == s[i] by {
            assert(full[top.0.len() + i] == k.subrange(0, full.len() as int)[top.0.len() + i]);
        }
    }
    assert(top.1.routes_to(s, kid.val@[0]));
    top.1.lemma_lookup_routes(s, kid.val@[0]);
    assert(s.skip(top.1.val@.len() as int) =~= t);
}

/// What a frame stores under a key other than the one that ends at its
/// root, the frame of one of its children stores.
pub(crate) proof fn lemma_top_holds_in_kid<Data>(
    top: (Seq<u8>, Node<Data>),
    kids: Seq<Node<Data>>,
    k: Seq<u8>,
) -> (j: int)
    requires
        is_kid_list(top.1, kids),
        holds(top, k) is Some,
        k != top.0 + top.1.val@,
    ensures
        0 <= j < kids.len(),
        holds((top.0 + top.1.val@, kids[j]), k) == holds(top, k),
{
    let full = top.0 + top.1.val@;
    let s = k.skip(top.0.len() as int);
    lemma_holds_covers(top, k);
    assert(k =~= top.0 + s);
    assert(s != top.1.val@);
    lemma_lookup_some_prefix(top.1, s);
    let t = s.skip(top.1.val@.len() as int);
    let b = t[0];
    assert(top.1.kids().contains_key(b));
    let j = choose|j: int|
        0 <= j < kids.len() && #[trigger] kids[j] == top.1.kids()[b] && kids[j].val@[0] == b;
    assert(k.skip(full.len() as int) =~= t);
    j
}

/// Visiting the root of the topmost frame: with the frame replaced by the
/// frames of its children, the frames still do not overlap, and they store
/// what they stored before but for the key that ends at that root, which
/// held the root's payload. One node fewer is left to walk.
pub(crate) proof fn lemma_expand<Data>(
    rest: Seq<(Seq<u8>, Node<Data>)>,
    top: (Seq<u8>, Node<Data>),
    kids: Seq<Node<Data>>,
)
    requires
        frames_wf(rest.push(top)),
        is_kid_list(top.1, kids),
    ensures
        frames_wf(rest + kid_frames(top, kids)),
        forall|k: Seq<u8>| #[trigger]
            frames_lookup(rest + kid_frames(top, kids), k) == if k == top.0 + top.1.val@ {
                None
            } else {
                frames_lookup(rest.push(top), k)
            },
        frames_lookup(rest.push(top), top.0 + top.1.val@) == top.1.data,
        frames_count(rest + kid_frames(top, kids)) + 1 == frames_count(rest.push(top)),
{
    let before = rest.push(top);
    let after = rest + kid_frames(top, kids);
    let full = top.0 + top.1.val@;
    let r = rest.len() as int;
    assert(before[r] == top);
    assert(before.last() == top);
    assert(before.drop_last() =~= rest);
    assert(top.1.kids_wf());
    assert forall|i: int| 0 <= i < after.len() implies (#[trigger] after[i]).1.kids_wf() by {
        if i < r {
            assert(after[i] == before[i]);
        } else {
            let kid = kids[i - r];
            assert(top.1.kids().contains_key(kid.val@[0]));
            assert(kid.inner_wf());
        }
    }
    assert forall|i: int, j: int, k: Seq<u8>|
        0 <= i < after.len() && 0 <= j < after.len() && i != j && #[trigger] covers(
            after[i],
            k,
        ) implies #[trigger] holds(after[j], k) is None by {
        if holds(after[j], k) is Some {
            if i < r && j < r {
                assert(after[i] == before[i] && after[j] == before[j]);
            } else if i < r {
                assert(after[i] == before[i]);
                lemma_kid_frame_holds(top, kids[j - r], k);
                assert(holds(before[r], k) is Some);
            } else if j < r {
                assert(after[j] == before[j]);
                let kid = kids[i - r];
                let long = full + kid.val@;
                assert(full =~= k.subrange(0, full.len() as int)) by {
                    assert(long =~= k.subrange(0, long.len() as int));
                    assert forall|x: int| 0 <= x < full.len() implies full[x] == k[x] by {
                        assert(long[x] == k.subrange(0, long.len() as int)[x]);
                    }
                }
                assert(covers(before[r], k));
            } else {
                let kid = kids[i - r];
                let long = full + kid.val@;
                let at = full.len() as int;
                assert(long[at] == k.subrange(0, long.len() as int)[at]);
                lemma_kid_frame_holds(top, kids[j - r], k);
                assert(kids[i - r].val@[0] != kids[j - r].val@[0]);
            }
        }
    }
    assert(frames_wf(after));
    assert(full.skip(top.0.len() as int) =~= top.1.val@);
    assert(top.0 =~= full.subrange(0, top.0.len() as int));
    assert(holds(top, full) == top.1.data);
    assert(covers(top, full)) by {
        assert(full =~= full.subrange(0, full.len() as int));
    }
    assert forall|i: int| 0 <= i < rest.len() implies holds(#[trigger] rest[i], full) is None by {
        assert(rest[i] == before[i]);
        assert(covers(before[r], full));
    }
    lemma_frames_lookup_none(rest, full);
    assert forall|k: Seq<u8>| #[trigger]
        frames_lookup(after, k) == if k == full {
            None
        } else {
            frames_lookup(before, k)
        } by {
        if k == full {
            assert forall|i: int| 0 <= i < after.len() implies holds(#[trigger] after[i], k)
                is None by {
                if i < r {
                    assert(after[i] == rest[i]);
                } else if holds(after[i], k) is Some {
                    lemma_kid_frame_holds(top, kids[i - r], k);
                }
            }
            lemma_frames_lookup_none(after, k);
        } else if holds(top, k) is Some {
            let j = lemma_top_holds_in_kid(top, kids, k);
            assert(after[r + j] == (full, kids[j]));
            lemma_frames_lookup_of(after, k, r + j);
        } else if frames_lookup(after, k) is Some {
            let i = lemma_frames_lookup_from(after, k);
            if i >= r {
                lemma_kid_frame_holds(top, kids[i - r], k);
            }
            assert(after[i] == before[i]);
            lemma_frames_lookup_of(before, k, i);
        } else if frames_lookup(rest, k) is Some {
            let i = lemma_frames_lookup_from(rest, k);
            assert(after[i] == rest[i]);
            lemma_frames_lookup_of(after, k, i);
        }
    }
    lemma_frames_count_concat(rest, top, kids);
    lemma_seq_count_below_all(kids);
    lemma_seq_count_below_matches(top.1, kids, 256);
}

/// The nodes to walk in the frames of the children are the nodes below them.
pub(crate) proof fn lemma_frames_count_concat<Data>(
    rest: Seq<(Seq<u8>, Node<Data>)>,
    top: (Seq<u8>, Node<Data>),
    kids: Seq<Node<Data>>,
)
    ensures
        frames_count(rest + kid_frames(top, kids)) == frames_count(rest) + seq_count(kids),
    decreases kids.len(),
{
    let all = rest + kid_frames(top, kids);
    if kids.len() == 0 {
        assert(all =~= rest);
    } else {
        let fewer = kids.drop_last();
        assert(all.drop_last() =~= rest + kid_frames(top, fewer));
        assert(all.last().1 == kids.last());
        lemma_frames_count_concat(rest, top, fewer);
    }
}

/// Every first byte lies below 256.
pub(crate) proof fn lemma_seq_count_below_all<Data>(kids: Seq<Node<Data>>)
    ensures
        seq_count_below(kids, 256) == seq_count(kids),
    decreases kids.len(),
{
    if kids.len() > 0 {
        lemma_seq_count_below_all(kids.drop_last());
    }
}

/// Raising the bound by one adds the subtree of the child whose label
/// starts with the byte `m`, if there is one in the list.
pub(crate) proof fn lemma_seq_count_below_step<Data>(
    node: Node<Data>,
    kids: Seq<Node<Data>>,
    m: nat,
)
    requires
        m < 256,
        forall|j: int|
            0 <= j < kids.len() ==> {
                &&& (#[trigger] kids[j]).val@.len() > 0
                &&& node.kids().contains_key(kids[j].val@[0])
                &&& node.kids()[kids[j].val@[0]] == kids[j]
            },
        forall|i: int, j: int|
            0 <= i < kids.len() && 0 <= j < kids.len() && i != j ==> (#[trigger] kids[i]).val@[0]
                != (#[trigger] kids[j]).val@[0],
    ensures
        seq_count_below(kids, m + 1) == seq_count_below(kids, m) + if exists|j: int|
            0 <= j < kids.len() && (#[trigger] kids[j]).val@[0] == m {
            node.kid_count(m as u8)
        } else {
            0
        },
    decreases kids.len(),
{
    if kids.len() > 0 {
        let fewer = kids.drop_last();
        let last = kids.last();
        assert(last == kids[kids.len() - 1]);
        assert forall|j: int| 0 <= j < fewer.len() implies {
            &&& (#[trigger] fewer[j]).val@.len() > 0
            &&& node.kids().contains_key(fewer[j].val@[0])
            &&& node.kids()[fewer[j].val@[0]] == fewer[j]
        } by {
            assert(fewer[j] == kids[j]);
        }
        assert forall|i: int, j: int|
            0 <= i < fewer.len() && 0 <= j < fewer.len() && i != j implies (
        #[trigger] fewer[i]).val@[0] != (#[trigger] fewer[j]).val@[0] by {
            assert(fewer[i] == kids[i] && fewer[j] == kids[j]);
        }
        lemma_seq_count_below_step(node, fewer, m);
        if last.val@[0] == m {
            assert(!exists|j: int| 0 <= j < fewer.len() && (#[trigger] fewer[j]).val@[0] == m) by {
                if exists|j: int| 0 <= j < fewer.len() && (#[trigger] fewer[j]).val@[0] == m {
                    let j = choose|j: int|
                        0 <= j < fewer.len() && (#[trigger] fewer[j]).val@[0] == m;
                    assert(fewer[j] == kids[j]);
                    assert(kids[j].val@[0] != kids[kids.len() - 1].val@[0]);
                }
            }
        } else {
            if exists|j: int| 0 <= j < kids.len() && (#[trigger] kids[j]).val@[0] == m {
                let j = choose|j: int| 0 <= j < kids.len() && (#[trigger] kids[j]).val@[0] == m;
                assert(fewer[j] == kids[j]);
            }
            if exists|j: int| 0 <= j < fewer.len() && (#[trigger] fewer[j]).val@[0] == m {
                let j = choose|j: int|
                    0 <= j < fewer.len() && (#[trigger] fewer[j]).val@[0] == m;
                assert(fewer[j] == kids[j]);
            }
        }
    }
}

/// Counted by first byte, a list of the children adds up to what the node
/// has below it.
pub(crate) proof fn lemma_seq_count_below_matches<Data>(
    node: Node<Data>,
    kids: Seq<Node<Data>>,
    m: nat,
)
    requires
        m <= 256,
        is_kid_list(node, kids),
    ensures
        seq_count_below(kids, m) == node.count_below(m),
    decreases m,
{
    if m == 0 {
        lemma_seq_count_below_zero(kids);
    } else {
        let b = (m - 1) as u8;
        lemma_seq_count_below_matches(node, kids, (m - 1) as nat);
        lemma_seq_count_below_step(node, kids, (m - 1) as nat);
        if node.kids().contains_key(b) {
            let j = choose|j: int|
                0 <= j < kids.len() && #[trigger] kids[j] == node.kids()[b] && kids[j].val@[0]
                    == b;
            assert(kids[j].val@[0] == (m - 1) as nat);
        } else if exists|j: int|
            0 <= j < kids.len() && (#[trigger] kids[j]).val@[0] == (m - 1) as nat {
            let j = choose|j: int|
                0 <= j < kids.len() && (#[trigger] kids[j]).val@[0] == (m - 1) as nat;
            assert(node.kids().contains_key(kids[j].val@[0]));
        }
    }
}

/// No first byte lies below 0.
pub(crate) proof fn lemma_seq_count_below_zero<Data>(kids: Seq<Node<Data>>)
    ensures
        seq_count_below(kids, 0) == 0,
    decreases kids.len(),
{
    if kids.len() > 0 {
        lemma_seq_count_below_zero(kids.drop_last());
    }
}

} // verus!
