use crate::bytes::{concat, join, joined};
use crate::frames::{frames_count, frames_map, frames_wf, is_kid_list, kid_frames, lemma_expand};
use crate::node::Node;
use vstd::prelude::*;
use vstd::slice::slice_to_vec;
use vstd::std_specs::hash::spec_hash_map_iter;
use vstd::std_specs::iter::IteratorSpec;

verus! {

/// Walks the stored keys that start with a given prefix, each with its
/// payload, in no particular order.
pub struct SubTrieIterator<'trie, Data> {
    /// The subtrees still to walk, each with the bytes that lead to it.
    stack: Vec<(Vec<u8>, &'trie Node<Data>)>,
}

/// Pushes a frame for each child of `node`, all reached by `key`.
fn push_kids<'trie, Data>(
    stack: &mut Vec<(Vec<u8>, &'trie Node<Data>)>,
    key: &Vec<u8>,
    node: &'trie Node<Data>,
) -> (kids: Ghost<Seq<Node<Data>>>)
    requires
        node.kids_wf(),
    ensures
        is_kid_list(*node, kids@),
        final(stack)@.len() == old(stack)@.len() + kids@.len(),
        forall|i: int| 0 <= i < old(stack)@.len() ==> final(stack)@[i] == old(stack)@[i],
        forall|j: int|
            0 <= j < kids@.len() ==> (#[trigger] final(stack)@[old(stack)@.len() + j]).0@ == key@
                && *final(stack)@[old(stack)@.len() + j].1 == kids@[j],
{
    let ghost base = stack@;
    let ghost mut kids: Seq<Node<Data>> = Seq::empty();
    match &node.children {
        None => {},
        Some(children) => {
            let ghost all = spec_hash_map_iter(children).remaining();
            for entry in it: children.iter()
                invariant
                    it.seq() == all,
                    it.seq().no_duplicates(),
                    kids.len() == it.index(),
                    forall|j: int| 0 <= j < kids.len() ==> kids[j] == *all[j].1,
                    stack@.len() == base.len() + kids.len(),
                    forall|i: int| 0 <= i < base.len() ==> stack@[i] == base[i],
                    forall|j: int|
                        0 <= j < kids.len() ==> (#[trigger] stack@[base.len() + j]).0@ == key@
                            && *stack@[base.len() + j].1 == kids[j],
            {
                let kid: &'trie Node<Data> = entry.1;
                stack.push((slice_to_vec(key.as_slice()), kid));
                proof {
                    kids = kids.push(*kid);
                }
            }
            proof {
                assert(kids.len() == all.len());
                assert forall|j: int| 0 <= j < kids.len() implies {
                    &&& (#[trigger] kids[j]).val@.len() > 0
                    &&& node.kids().contains_key(kids[j].val@[0])
                    &&& node.kids()[kids[j].val@[0]] == kids[j]
                    &&& kids[j].val@[0] == *all[j].0
                } by {
                    assert(children@.contains_key(*all[j].0));
                }
                assert forall|b: u8| #[trigger] node.kids().contains_key(b) implies exists|j: int|
                    0 <= j < kids.len() && #[trigger] kids[j] == node.kids()[b] && kids[j].val@[0]
                        == b by {
                    assert(all.contains((&b, &children@[b])));
                    let j = choose|j: int| 0 <= j < all.len() && all[j] == (&b, &children@[b]);
                    assert(kids[j] == node.kids()[b]);
                }
                assert forall|i: int, j: int|
                    0 <= i < kids.len() && 0 <= j < kids.len() && i != j implies (
                #[trigger] kids[i]).val@[0] != (#[trigger] kids[j]).val@[0] by {
                    if kids[i].val@[0] == kids[j].val@[0] {
                        assert(children@.contains_key(*all[i].0));
                        assert(children@.contains_key(*all[j].0));
                        assert(all[i] == all[j]);
                    }
                }
            }
        },
    }
    Ghost(kids)
}

impl<'trie, Data> SubTrieIterator<'trie, Data> {
    /// The subtrees still to walk, as the traversal model sees them.
    pub(crate) closed spec fn frames(&self) -> Seq<(Seq<u8>, Node<Data>)> {
        Seq::new(self.stack@.len(), |i: int| (self.stack@[i].0@, *self.stack@[i].1))
    }

    /// The subtrees still to walk are in shape and do not overlap.
    pub closed spec fn wf(&self) -> bool {
        frames_wf(self.frames())
    }

    /// The keys that are still to come, each with its payload.
    pub closed spec fn remaining(&self) -> Map<Seq<u8>, Data> {
        frames_map(self.frames())
    }

    /// An iterator that yields nothing.
    pub(crate) fn empty() -> (it: Self)
        ensures
            it.wf(),
            it.remaining() == Map::<Seq<u8>, Data>::empty(),
    {
        let it = SubTrieIterator { stack: Vec::new() };
        assert(it.remaining() =~= Map::<Seq<u8>, Data>::empty());
        it
    }

    /// An iterator over everything stored at or below `node`, which is
    /// reached by the labels in `prefixes`.
    pub(crate) fn from_node_and_prefixes(
        node: &'trie Node<Data>,
        prefixes: Vec<&'trie [u8]>,
    ) -> (it: Self)
        requires
            node.kids_wf(),
        ensures
            it.wf(),
            it.remaining() == frames_map(seq![(joined(prefixes@), *node)]),
    {
        let mut stack = Vec::new();
        stack.push((join(&prefixes), node));
        let it = SubTrieIterator { stack };
        assert(it.frames() =~= seq![(joined(prefixes@), *node)]);
        it
    }

    /// The next stored key with its payload, or nothing when all have been
    /// yielded.
    pub fn next(&mut self) -> (res: Option<(Vec<u8>, &'trie Data)>)
        requires
            old(self).wf(),
        ensures
            final(self).wf(),
            match res {
                Some((key, data)) => {
                    &&& old(self).remaining().contains_key(key@)
                    &&& old(self).remaining()[key@] == *data
                    &&& final(self).remaining() == old(self).remaining().remove(key@)
                },
                None => {
                    &&& old(self).remaining() == Map::<Seq<u8>, Data>::empty()
                    &&& final(self).remaining() == Map::<Seq<u8>, Data>::empty()
                },
            },
    {
        loop
            invariant
                self.wf(),
                self.remaining() == old(self).remaining(),
            decreases frames_count(self.frames()),
        {
            let ghost before = self.frames();
            let (prefix, node) = match self.stack.pop() {
                None => {
                    assert(self.remaining() =~= Map::<Seq<u8>, Data>::empty());
                    return None;
                },
                Some(frame) => frame,
            };
            let ghost rest = self.frames();
            let ghost top = (prefix@, *node);
            proof {
                assert(before =~= rest.push(top));
            }
            let key = concat(prefix.as_slice(), node.val.as_slice());
            let kids = push_kids(&mut self.stack, &key, node);
            proof {
                let after = rest + kid_frames(top, kids@);
                assert(self.frames().len() == after.len());
                assert forall|i: int| 0 <= i < after.len() implies self.frames()[i]
                    == after[i] by {
                    if i >= rest.len() {
                        let j = i - rest.len();
                        assert(self.stack@[rest.len() + j].0@ == key@);
                    }
                }
                assert(self.frames() =~= after);
                lemma_expand(rest, top, kids@);
            }
            match node.data.as_ref() {
                Some(data) => {
                    assert(self.remaining() =~= old(self).remaining().remove(key@));
                    return Some((key, data));
                },
                None => {
                    assert(self.remaining() =~= old(self).remaining());
                },
            }
        }
    }
}

} // verus!
