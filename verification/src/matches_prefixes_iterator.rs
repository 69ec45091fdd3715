use crate::bytes::{common_prefix_len, lemma_common_prefix_len};
use crate::node::Node;
use crate::trie::Trie;
use vstd::prelude::*;
use vstd::slice::slice_subrange;

verus! {

/// The entries of `m` whose key is one of the prefixes of `query` of length
/// `from` or more, from the shortest key to the longest.
pub open spec fn prefix_matches<Data>(m: Map<Seq<u8>, Data>, query: Seq<u8>, from: int) -> Seq<
    (Seq<u8>, Data),
>
    decreases query.len() - from + 1,
{
    if from < 0 || from > query.len() {
        Seq::empty()
    } else {
        let k = query.take(from);
        (if m.contains_key(k) {
            seq![(k, m[k])]
        } else {
            Seq::empty()
        }) + prefix_matches(m, query, from + 1)
    }
}

/// Two maps that agree on the prefixes of `query` of length `from` or more
/// have the same matches from there on.
pub proof fn lemma_matches_agree<Data>(
    m1: Map<Seq<u8>, Data>,
    m2: Map<Seq<u8>, Data>,
    query: Seq<u8>,
    from: int,
)
    requires
        0 <= from,
        forall|j: int|
            from <= j <= query.len() ==> (#[trigger] m1.contains_key(query.take(j)))
                == m2.contains_key(query.take(j)),
        forall|j: int|
            from <= j <= query.len() && #[trigger] m1.contains_key(query.take(j)) ==> m1[query.take(
                j,
            )] == m2[query.take(j)],
    ensures
        prefix_matches(m1, query, from) == prefix_matches(m2, query, from),
    decreases query.len() - from + 1,
{
    if from <= query.len() {
        assert(m1.contains_key(query.take(from)) == m2.contains_key(query.take(from)));
        lemma_matches_agree(m1, m2, query, from + 1);
    }
}

/// Where no prefix of `query` with a length from `from` up to `to` is a
/// key, the matches from `from` on are those from `to` on.
pub proof fn lemma_matches_skip<Data>(m: Map<Seq<u8>, Data>, query: Seq<u8>, from: int, to: int)
    requires
        0 <= from <= to,
        forall|j: int| from <= j < to && j <= query.len() ==> !#[trigger] m.contains_key(
            query.take(j),
        ),
    ensures
        prefix_matches(m, query, from) == prefix_matches(m, query, to),
    decreases to - from,
{
    if from < to {
        lemma_matches_skip(m, query, from + 1, to);
        if from <= query.len() {
            assert(!m.contains_key(query.take(from)));
            assert(Seq::<(Seq<u8>, Data)>::empty() + prefix_matches(m, query, from + 1)
                =~= prefix_matches(m, query, from + 1));
        }
    }
}

/// Walks the stored keys that are prefixes of a given query, from the
/// shortest to the longest, each with its payload.
pub struct MatchesPrefixesIterator<'trie, Data> {
    /// The node to visit next, if the walk goes on.
    node: Option<&'trie Node<Data>>,
    /// The query.
    key: &'trie [u8],
    /// How many bytes of the query lead to `node`.
    pos: usize,
}

/// What the subtree of `node`, reached by the first `pos` bytes of `query`,
/// stores under whole keys.
pub(crate) open spec fn reach<Data>(node: Node<Data>, query: Seq<u8>, pos: int) -> Map<
    Seq<u8>,
    Data,
> {
    Map::new(
        |k: Seq<u8>| query.take(pos).is_prefix_of(k) && node.lookup(k.skip(pos)) is Some,
        |k: Seq<u8>| node.lookup(k.skip(pos))->0,
    )
}

impl<'trie, Data> MatchesPrefixesIterator<'trie, Data> {
    /// The walk is inside the query and the node to visit is in shape.
    pub closed spec fn wf(&self) -> bool {
        &&& self.pos <= self.key@.len()
        &&& self.node matches Some(node) ==> node.kids_wf()
    }

    /// The query that the iterator was made for.
    pub closed spec fn query(&self) -> Seq<u8> {
        self.key@
    }

    /// The entries that are still to come, in the order in which they come.
    pub closed spec fn remaining(&self) -> Seq<(Seq<u8>, Data)> {
        match self.node {
            Some(node) => prefix_matches(
                reach(*node, self.key@, self.pos as int),
                self.key@,
                self.pos as int,
            ),
            None => Seq::empty(),
        }
    }

    /// An iterator over the entries of `trie` whose key is a prefix of `key`.
    pub(crate) fn from_trie(trie: &'trie Trie<Data>, key: &'trie [u8]) -> (it: Self)
        requires
            trie.wf(),
        ensures
            it.wf(),
            it.query() == key@,
            it.remaining() == prefix_matches(trie@, key@, 0),
    {
        let it = MatchesPrefixesIterator { node: trie.root.as_ref(), key, pos: 0 };
        proof {
            trie.lemma_view_root();
            if trie.root is Some {
                assert forall|k: Seq<u8>| k.skip(0) == k by {
                    assert(k.skip(0) =~= k);
                }
                assert(reach(trie.root->0, key@, 0) =~= trie@);
            } else {
                lemma_matches_skip(trie@, key@, 0, key@.len() as int + 1);
            }
        }
        it
    }

    /// The next stored key that is a prefix of the query, with its payload,
    /// or nothing when all have been yielded. The key is handed out as the
    /// part of the query that it is.
    pub fn next(&mut self) -> (res: Option<(&'trie [u8], &'trie Data)>)
        requires
            old(self).wf(),
        ensures
            final(self).wf(),
            final(self).query() == old(self).query(),
            match res {
                Some((key, data)) => {
                    &&& old(self).remaining().len() > 0
                    &&& old(self).remaining()[0] == (key@, *data)
                    &&& final(self).remaining() == old(self).remaining().drop_first()
                },
                None => {
                    &&& old(self).remaining() == Seq::<(Seq<u8>, Data)>::empty()
                    &&& final(self).remaining() == Seq::<(Seq<u8>, Data)>::empty()
                },
            },
    {
        loop
            invariant
                self.wf(),
                self.key == old(self).key,
                self.remaining() == old(self).remaining(),
            decreases
                    match self.node {
                        Some(node) => 2 * (self.key@.len() - self.pos) + if node.val@.len() > 0 {
                            1nat
                        } else {
                            2nat
                        },
                        None => 0,
                    },
        {
            let node = match self.node {
                None => {
                    return None;
                },
                Some(node) => node,
            };
            let ghost query = self.key@;
            let ghost pos = self.pos as int;
            let ghost here = reach(*node, query, pos);
            let rest = slice_subrange(self.key, self.pos, self.key.len());
            let p = common_prefix_len(node.val.as_slice(), rest);
            proof {
                lemma_common_prefix_len(node.val@, rest@, p as int);
                assert forall|j: int| pos <= j <= query.len() implies #[trigger] query.take(
                    j,
                ).skip(pos) == rest@.take(j - pos) && query.take(pos).is_prefix_of(
                    query.take(j),
                ) by {
                    assert(query.take(j).skip(pos) =~= rest@.take(j - pos));
                    assert(query.take(pos) =~= query.take(j).subrange(0, pos));
                }
            }
            if p < node.val.len() {
                proof {
                    assert forall|j: int| pos <= j <= query.len() implies !(
                    #[trigger] here.contains_key(query.take(j))) by {
                        let t = rest@.take(j - pos);
                        if node.val@.is_prefix_of(t) {
                            assert(node.val@ =~= rest@.subrange(0, node.val@.len() as int)) by {
                                assert forall|i: int| 0 <= i < node.val@.len() implies node.val@[i]
                                    == rest@[i] by {
                                    let n = node.val@.len() as int;
                                    assert(node.val@[i] == t.subrange(0, n)[i]);
                                }
                            }
                        }
                        if t == node.val@ {
                            assert(node.val@ =~= t.subrange(0, node.val@.len() as int));
                        }
                    }
                    lemma_matches_skip(here, query, pos, query.len() as int + 1);
                }
                self.node = None;
                return None;
            }
            let end = self.pos + p;
            let next = if end < self.key.len() {
                match &node.children {
                    Some(children) => children.get(&self.key[end]),
                    None => None,
                }
            } else {
                None
            };
            proof {
                let label = node.val@;
                assert(label =~= rest@.take(p as int));
                assert forall|j: int| pos <= j < end implies !#[trigger] here.contains_key(
                    query.take(j),
                ) by {
                    let t = rest@.take(j - pos);
                    assert(t.len() < label.len());
                }
                lemma_matches_skip(here, query, pos, end as int);
                assert(query.take(end as int).skip(pos) == label);
                assert(here.contains_key(query.take(end as int)) == (node.data is Some));
                assert forall|j: int| end < j <= query.len() implies node.routes_to(
                    #[trigger] rest@.take(j - pos),
                    query[end as int],
                ) && rest@.take(j - pos).skip(label.len() as int) == query.take(j).skip(
                    end as int,
                ) by {
                    let t = rest@.take(j - pos);
                    assert(label =~= t.subrange(0, label.len() as int));
                    assert(t.skip(label.len() as int) =~= query.take(j).skip(end as int));
                }
                match next {
                    Some(child) => {
                        let there = reach(*child, query, end as int);
                        assert(node.kids().contains_key(query[end as int]));
                        assert(node.kids()[query[end as int]] == *child);
                        assert(child.val@.len() > 0);
                        assert(query.take(end as int).skip(end as int) =~= Seq::<u8>::empty());
                        assert(!there.contains_key(query.take(end as int)));
                        lemma_matches_skip(there, query, end as int, end + 1);
                        assert forall|j: int| end + 1 <= j <= query.len() implies (
                        #[trigger] here.contains_key(query.take(j))) == there.contains_key(
                            query.take(j),
                        ) && (here.contains_key(query.take(j)) ==> here[query.take(j)]
                            == there[query.take(j)]) by {
                            node.lemma_lookup_routes(rest@.take(j - pos), query[end as int]);
                            let head = query.take(end as int);
                            assert(head =~= query.take(j).subrange(0, end as int));
                        }
                        lemma_matches_agree(here, there, query, end + 1);
                    },
                    None => {
                        assert forall|j: int| end + 1 <= j <= query.len() implies !(
                        #[trigger] here.contains_key(query.take(j))) by {
                            node.lemma_lookup_routes(rest@.take(j - pos), query[end as int]);
                        }
                        lemma_matches_skip(here, query, end + 1, query.len() as int + 1);
                    },
                }
            }
            self.node = next;
            self.pos = end;
            match node.data.as_ref() {
                Some(data) => {
                    let found = slice_subrange(self.key, 0, end);
                    proof {
                        assert(old(self).remaining() =~= seq![(found@, *data)] + self.remaining());
                        assert(old(self).remaining().drop_first() =~= self.remaining());
                    }
                    return Some((found, data));
                },
                None => {
                    proof {
                        assert(old(self).remaining() =~= Seq::<(Seq<u8>, Data)>::empty()
                            + self.remaining());
                    }
                },
            }
        }
    }
}

} // verus!
