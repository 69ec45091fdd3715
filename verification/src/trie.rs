use crate::bytes::keys_with_prefix;
use crate::frames::{
    frames_count, frames_lookup, frames_map, frames_wf, is_kid_list, kid_frames, lemma_expand,
    lemma_frames_lookup_at,
};
use crate::matches_prefixes_iterator::{
    lemma_matches_skip, prefix_matches, MatchesPrefixesIterator,
};
use crate::node::{any_key, lemma_stores_a_key, Node};
use crate::paths::{lemma_paths_count, node_paths};
use crate::sub_trie_iterator::SubTrieIterator;
use std::collections::HashMap;
use vstd::prelude::*;
use vstd::slice::slice_to_vec;
use vstd::string::StringSliceAdditionalSpecFns;

verus! {

/// A compressed trie from byte strings to payloads.
///
/// Its view is the map from each stored key to its payload.
pub struct Trie<Data> {
    pub(crate) root: Option<Node<Data>>,
    pub(crate) len: usize,
    pub(crate) n_nodes: usize,
}

impl<Data> View for Trie<Data> {
    type V = Map<Seq<u8>, Data>;

    closed spec fn view(&self) -> Map<Seq<u8>, Data> {
        match self.root {
            Some(root) => root.as_map(),
            None => Map::empty(),
        }
    }
}

impl<Data> Trie<Data> {
    /// The number of nodes that a compressed trie needs for what is stored:
    /// one at each key and one at each fork.
    pub open spec fn node_total(&self) -> nat {
        node_paths(self@).len()
    }

    /// The number of nodes that the trie is made of.
    pub closed spec fn node_count(&self) -> nat {
        match self.root {
            Some(root) => root.count(),
            None => 0,
        }
    }

    /// The trie is compressed and its counters are exact: every node
    /// carries a payload or forks into at least two children, every child
    /// is filed under the first byte of its non-empty label, `len` is the
    /// number of keys and `n_nodes` the number of nodes.
    pub closed spec fn wf(&self) -> bool {
        &&& self.root matches Some(root) ==> root.inner_wf()
        &&& self@.dom().finite()
        &&& self.len == self@.dom().len()
        &&& self.n_nodes == self.node_count()
    }

    /// A trie in shape is made of exactly the nodes that what it stores
    /// calls for.
    pub(crate) proof fn lemma_node_count(&self)
        requires
            self.root matches Some(root) ==> root.inner_wf(),
        ensures
            node_paths(self@).finite(),
            self.node_count() == self.node_total(),
    {
        match self.root {
            Some(root) => {
                lemma_paths_count(root);
            },
            None => {
                assert(node_paths(self@) =~= Set::empty());
            },
        }
    }

    /// What the view is made of.
    pub(crate) proof fn lemma_view_root(&self)
        ensures
            self@ == match self.root {
                Some(root) => root.as_map(),
                None => Map::empty(),
            },
            self.wf() ==> (self.root matches Some(root) ==> root.inner_wf()),
    {
    }

    /// An empty trie.
    #[must_use]
    pub fn new() -> (trie: Self)
        ensures
            trie.wf(),
            trie@ == Map::<Seq<u8>, Data>::empty(),
            trie.node_total() == 0,
    {
        let trie = Self { root: None, len: 0, n_nodes: 0 };
        proof {
            trie.lemma_node_count();
        }
        trie
    }

    /// Stores `data` under `key` and returns the payload that `key` had
    /// before, if it had one.
    pub fn add(&mut self, key: &[u8], data: Data) -> (res: Option<Data>)
        requires
            old(self).wf(),
            old(self).node_total() + 2 <= usize::MAX,
        ensures
            final(self).wf(),
            final(self)@ == old(self)@.insert(key@, data),
            res == old(self)@.get(key@),
            final(self)@.len() == old(self)@.len() + if old(self)@.contains_key(key@) {
                0nat
            } else {
                1nat
            },
            old(self).node_total() <= final(self).node_total() <= old(self).node_total() + 2,
            res is Some ==> final(self).node_total() == old(self).node_total(),
            old(self).node_total() == 0 ==> final(self).node_total() == 1,
    {
        proof {
            self.lemma_node_count();
            self.lemma_keys_within_nodes();
        }
        let res = match self.root.as_mut() {
            Some(root) => {
                let (old_data, nodes_added) = root.add(key, data);
                self.n_nodes += nodes_added;
                old_data
            },
            None => {
                self.root = Some(Node { val: slice_to_vec(key), children: None, data: Some(data) });
                self.n_nodes += 1;
                None
            },
        };
        if res.is_none() {
            self.len += 1;
        }
        proof {
            if old(self).root is None {
                self.root->0.lemma_count_below_zero(256);
            }
            assert(self@ =~= old(self)@.insert(key@, data));
            self.lemma_node_count();
        }
        res
    }

    /// [`Self::add`] for a key given as text: the key is its UTF-8 bytes.
    pub fn add_str(&mut self, key: &str, data: Data) -> (res: Option<Data>)
        requires
            old(self).wf(),
            old(self).node_total() + 2 <= usize::MAX,
        ensures
            final(self).wf(),
            final(self)@ == old(self)@.insert(key.spec_bytes(), data),
            res == old(self)@.get(key.spec_bytes()),
            final(self)@.len() == old(self)@.len() + if old(self)@.contains_key(
                key.spec_bytes(),
            ) {
                0nat
            } else {
                1nat
            },
            old(self).node_total() <= final(self).node_total() <= old(self).node_total() + 2,
            res is Some ==> final(self).node_total() == old(self).node_total(),
            old(self).node_total() == 0 ==> final(self).node_total() == 1,
    {
        self.add(key.as_bytes(), data)
    }

    /// The payload stored under `key`, if there is one.
    pub fn get(&self, key: &[u8]) -> (res: Option<&Data>)
        ensures
            match res {
                Some(data) => self@.contains_key(key@) && self@[key@] == *data,
                None => !self@.contains_key(key@),
            },
    {
        match self.root.as_ref() {
            Some(root) => root.get(key),
            None => None,
        }
    }

    /// Mutable access to the payload stored under `key`, if there is one.
    /// Whatever the caller writes through it is what `key` holds afterwards;
    /// nothing else changes.
    pub fn get_mut(&mut self, key: &[u8]) -> (res: Option<&mut Data>)
        requires
            old(self).wf(),
        ensures
            final(self).wf(),
            final(self).node_total() == old(self).node_total(),
            match res {
                Some(data) => {
                    &&& old(self)@.contains_key(key@)
                    &&& old(self)@[key@] == *data
                    &&& final(self)@ == old(self)@.insert(key@, *final(data))
                },
                None => !old(self)@.contains_key(key@) && final(self)@ == old(self)@,
            },
    {
        let ghost after = *final(self);
        let res = match self.root.as_mut() {
            Some(root) => root.get_mut(key),
            None => None,
        };
        proof {
            old(self).lemma_node_count();
            after.lemma_node_count();
            if res is Some {
                assert(after@ =~= old(self)@.insert(key@, *final(res->0)));
                assert(after@.dom() =~= old(self)@.dom());
            } else {
                assert(after@ =~= old(self)@);
            }
        }
        res
    }

    /// [`Self::get`] for a key given as text.
    pub fn get_str(&self, key: &str) -> (res: Option<&Data>)
        ensures
            match res {
                Some(data) => self@.contains_key(key.spec_bytes()) && self@[key.spec_bytes()]
                    == *data,
                None => !self@.contains_key(key.spec_bytes()),
            },
    {
        self.get(key.as_bytes())
    }

    /// [`Self::get_mut`] for a key given as text.
    pub fn get_str_mut(&mut self, key: &str) -> (res: Option<&mut Data>)
        requires
            old(self).wf(),
        ensures
            final(self).wf(),
            final(self).node_total() == old(self).node_total(),
            match res {
                Some(data) => {
                    &&& old(self)@.contains_key(key.spec_bytes())
                    &&& old(self)@[key.spec_bytes()] == *data
                    &&& final(self)@ == old(self)@.insert(key.spec_bytes(), *final(data))
                },
                None => !old(self)@.contains_key(key.spec_bytes()) && final(self)@ == old(
                    self,
                )@,
            },
    {
        self.get_mut(key.as_bytes())
    }

    /// Removes `key` and returns the payload it had. Where `key` is not
    /// stored, returns nothing and leaves the trie as it was.
    pub fn del(&mut self, key: &[u8]) -> (res: Option<Data>)
        requires
            old(self).wf(),
        ensures
            final(self).wf(),
            res == old(self)@.get(key@),
            final(self)@ == old(self)@.remove(key@),
            !final(self)@.contains_key(key@),
            res is Some ==> final(self)@.len() == old(self)@.len() - 1,
            res is None ==> final(self)@ == old(self)@,
            res is None ==> final(self).node_total() == old(self).node_total(),
            final(self).node_total() <= old(self).node_total() <= final(self).node_total() + 2,
    {
        let ghost after = *final(self);
        proof {
            self.lemma_node_count();
        }
        let (data, should_delete, mut n_nodes_deleted) = match self.root.as_mut() {
            None => {
                proof {
                    assert(after@ =~= old(self)@.remove(key@));
                    assert(after@ =~= old(self)@);
                }
                return None;
            },
            Some(root) => match root.del(key) {
                None => {
                    proof {
                        assert(after@ =~= old(self)@.remove(key@));
                        assert(after@ =~= old(self)@);
                    }
                    return None;
                },
                Some(found) => found,
            },
        };
        if should_delete {
            proof {
                self.root->0.lemma_count_below_zero(256);
            }
            self.root = None;
            n_nodes_deleted += 1;
        }
        self.len -= 1;
        self.n_nodes -= n_nodes_deleted;
        proof {
            assert(self@ =~= old(self)@.remove(key@));
            self.lemma_node_count();
        }
        Some(data)
    }

    /// [`Self::del`] for a key given as text.
    pub fn del_str(&mut self, key: &str) -> (res: Option<Data>)
        requires
            old(self).wf(),
        ensures
            final(self).wf(),
            res == old(self)@.get(key.spec_bytes()),
            final(self)@ == old(self)@.remove(key.spec_bytes()),
            !final(self)@.contains_key(key.spec_bytes()),
            res is Some ==> final(self)@.len() == old(self)@.len() - 1,
            res is None ==> final(self)@ == old(self)@,
            res is None ==> final(self).node_total() == old(self).node_total(),
            final(self).node_total() <= old(self).node_total() <= final(self).node_total() + 2,
    {
        self.del(key.as_bytes())
    }

    /// An iterator over the stored keys that start with `key`, each with its
    /// payload.
    pub fn find<'trie>(&'trie mut self, key: &'trie [u8]) -> (it: SubTrieIterator<'trie, Data>)
        requires
            old(self).wf(),
        ensures
            *final(self) == *old(self),
            it.wf(),
            it.remaining() == old(self)@.restrict(keys_with_prefix(key@)),
    {
        match self.root.as_ref() {
            Some(root) => {
                let it = root.find(key, Vec::new());
                proof {
                    let pre = Seq::<u8>::empty();
                    assert(pre + key@ =~= key@);
                    assert forall|k: Seq<u8>| #[trigger]
                        frames_lookup(seq![(pre, *root)], k) == root.lookup(k) by {
                        lemma_frames_lookup_at(seq![(pre, *root)], k, 0);
                        assert(k.skip(0) =~= k);
                    }
                    assert(frames_map(seq![(pre, *root)]) =~= old(self)@);
                }
                it
            },
            None => {
                let it = SubTrieIterator::empty();
                assert(it.remaining() =~= old(self)@.restrict(keys_with_prefix(key@)));
                it
            },
        }
    }

    /// [`Self::find`] for a prefix given as text.
    pub fn find_str<'trie>(&'trie mut self, key: &'trie str) -> (it: SubTrieIterator<'trie, Data>)
        requires
            old(self).wf(),
        ensures
            *final(self) == *old(self),
            it.wf(),
            it.remaining() == old(self)@.restrict(keys_with_prefix(key.spec_bytes())),
    {
        self.find(key.as_bytes())
    }

    /// An iterator over the stored keys that are prefixes of `key`, from the
    /// shortest to the longest, each with its payload.
    pub fn find_matches_prefixes<'trie>(&'trie mut self, key: &'trie [u8]) -> (it:
        MatchesPrefixesIterator<'trie, Data>)
        requires
            old(self).wf(),
        ensures
            *final(self) == *old(self),
            it.wf(),
            it.query() == key@,
            it.remaining() == prefix_matches(old(self)@, key@, 0),
    {
        MatchesPrefixesIterator::from_trie(self, key)
    }

    /// [`Self::find_matches_prefixes`] for a query given as text.
    pub fn find_matches_prefixes_str<'trie>(&'trie mut self, key: &'trie str) -> (it:
        MatchesPrefixesIterator<'trie, Data>)
        requires
            old(self).wf(),
        ensures
            *final(self) == *old(self),
            it.wf(),
            it.query() == key.spec_bytes(),
            it.remaining() == prefix_matches(old(self)@, key.spec_bytes(), 0),
    {
        self.find_matches_prefixes(key.as_bytes())
    }

    /// Gives up the trie for an iterator over its payloads, in no
    /// particular order.
    pub fn into_iter(self) -> (it: TrieDataIterator<Data>)
        requires
            self.wf(),
        ensures
            it.wf(),
            it.remaining() == self@,
    {
        let ghost start = Seq::<u8>::empty();
        let ghost mut prefixes: Seq<Seq<u8>> = Seq::empty();
        let mut nodes = Vec::new();
        match self.root {
            Some(root) => {
                proof {
                    assert forall|k: Seq<u8>| #[trigger]
                        frames_lookup(seq![(start, root)], k) == root.lookup(k) by {
                        lemma_frames_lookup_at(seq![(start, root)], k, 0);
                        assert(k.skip(0) =~= k);
                    }
                    prefixes = seq![start];
                }
                nodes.push(root);
            },
            None => {},
        }
        let it = TrieDataIterator { nodes, prefixes: Ghost(prefixes) };
        proof {
            if self.root is Some {
                assert(it.frames() =~= seq![(start, self.root->0)]);
            }
            assert(it.remaining() =~= self@);
        }
        it
    }

    /// The number of keys stored.
    pub fn len(&self) -> (res: usize)
        requires
            self.wf(),
        ensures
            res == self@.len(),
    {
        self.len
    }

    /// The number of nodes that the trie is made of.
    pub fn n_nodes(&self) -> (res: usize)
        requires
            self.wf(),
        ensures
            res == self.node_count(),
            res == self.node_total(),
    {
        proof {
            self.lemma_node_count();
        }
        self.n_nodes
    }

    /// Whether no key is stored.
    pub fn is_empty(&self) -> (res: bool)
        requires
            self.wf(),
        ensures
            res == (self@.len() == 0),
            res == (self@ == Map::<Seq<u8>, Data>::empty()),
    {
        proof {
            if self@.len() == 0 {
                self@.dom().lemma_len0_is_empty();
                assert(self@ =~= Map::<Seq<u8>, Data>::empty());
            }
        }
        self.len == 0
    }
}

impl<Data> Default for Trie<Data> {
    fn default() -> (trie: Self)
        ensures
            trie.wf(),
            trie@ == Map::<Seq<u8>, Data>::empty(),
            trie.node_total() == 0,
    {
        Self::new()
    }
}

/// The map that results from `m` when each of `keys` is stored in turn with
/// the payload at the same place in `vals`.
pub open spec fn after_adds<Data>(
    m: Map<Seq<u8>, Data>,
    keys: Seq<Seq<u8>>,
    vals: Seq<Data>,
) -> Map<Seq<u8>, Data>
    decreases keys.len(),
{
    if keys.len() == 0 || keys.len() != vals.len() {
        m
    } else {
        after_adds(m, keys.drop_last(), vals.drop_last()).insert(keys.last(), vals.last())
    }
}

/// `out` is a run of a drain of `m`: each payload in it belongs to an
/// entry that is taken out as it is yielded, and the run ends when no entry
/// is left.
pub open spec fn is_drain_of<Data>(m: Map<Seq<u8>, Data>, out: Seq<Data>) -> bool
    decreases out.len(),
{
    if out.len() == 0 {
        m == Map::<Seq<u8>, Data>::empty()
    } else {
        exists|k: Seq<u8>| #[trigger]
            m.contains_key(k) && m[k] == out.first() && is_drain_of(m.remove(k), out.drop_first())
    }
}

impl<Data> Trie<Data> {
    /// Round trip: a trie that was filled from empty with distinct keys holds
    /// each key with the payload that was stored under it, and as many keys
    /// as were stored.
    pub proof fn lemma_round_trip(&self, keys: Seq<Seq<u8>>, vals: Seq<Data>)
        requires
            self.wf(),
            keys.len() == vals.len(),
            keys.no_duplicates(),
            self@ == after_adds(Map::<Seq<u8>, Data>::empty(), keys, vals),
        ensures
            self@.len() == keys.len(),
            forall|i: int|
                0 <= i < keys.len() ==> self@.contains_key(#[trigger] keys[i]) && self@[keys[i]]
                    == vals[i],
            forall|k: Seq<u8>| #[trigger] self@.contains_key(k) ==> keys.contains(k),
    {
        lemma_after_adds(keys, vals);
    }

    /// Compression: a trie is made of exactly one node at each key and one
    /// at each fork. No node is there for any other reason: none that has
    /// neither a payload nor a child, and none that has no payload and a
    /// single child.
    pub proof fn lemma_compressed(&self)
        requires
            self.wf(),
        ensures
            node_paths(self@).finite(),
            self.node_count() == node_paths(self@).len(),
    {
        self.lemma_node_count();
    }

    /// A trie has at least as many nodes as keys.
    pub proof fn lemma_keys_within_nodes(&self)
        requires
            self.wf(),
        ensures
            self@.len() <= self.node_total(),
    {
        self.lemma_node_count();
        assert(self@.dom().subset_of(node_paths(self@)));
        vstd::set_lib::lemma_len_subset(self@.dom(), node_paths(self@));
    }

    /// A trie has no node exactly when it has no key.
    pub proof fn lemma_no_node_without_key(&self)
        requires
            self.wf(),
        ensures
            self.node_total() == 0 <==> self@.len() == 0,
    {
        self.lemma_node_count();
        if self.root is Some {
            let k = lemma_stores_a_key(self.root->0);
            assert(self@.contains_key(k));
            if self@.len() == 0 {
                self@.dom().lemma_len0_is_empty();
            }
        }
    }

    /// Nothing is stored in an empty trie: no key is found, no key starts
    /// with any prefix, and no key is a prefix of any query.
    pub proof fn lemma_empty(&self, key: Seq<u8>)
        requires
            self@ == Map::<Seq<u8>, Data>::empty(),
        ensures
            self@.len() == 0,
            !self@.contains_key(key),
            self@.remove(key) == self@,
            self@.restrict(keys_with_prefix(key)) == Map::<Seq<u8>, Data>::empty(),
            prefix_matches(self@, key, 0) == Seq::<(Seq<u8>, Data)>::empty(),
    {
        assert(self@.remove(key) =~= self@);
        assert(self@.restrict(keys_with_prefix(key)) =~= Map::<Seq<u8>, Data>::empty());
        lemma_matches_skip(self@, key, 0, key.len() as int + 1);
    }
}

/// What storing distinct keys in turn into an empty map gives.
pub proof fn lemma_after_adds<Data>(keys: Seq<Seq<u8>>, vals: Seq<Data>)
    requires
        keys.len() == vals.len(),
        keys.no_duplicates(),
    ensures
        after_adds(Map::<Seq<u8>, Data>::empty(), keys, vals).dom().finite(),
        after_adds(Map::<Seq<u8>, Data>::empty(), keys, vals).len() == keys.len(),
        forall|i: int|
            0 <= i < keys.len() ==> after_adds(
                Map::<Seq<u8>, Data>::empty(),
                keys,
                vals,
            ).contains_key(#[trigger] keys[i]) && after_adds(
                Map::<Seq<u8>, Data>::empty(),
                keys,
                vals,
            )[keys[i]] == vals[i],
        forall|k: Seq<u8>| #[trigger]
            after_adds(Map::<Seq<u8>, Data>::empty(), keys, vals).contains_key(k)
                ==> keys.contains(k),
    decreases keys.len(),
{
    if keys.len() > 0 {
        let fewer = keys.drop_last();
        let before = after_adds(Map::<Seq<u8>, Data>::empty(), fewer, vals.drop_last());
        let after = after_adds(Map::<Seq<u8>, Data>::empty(), keys, vals);
        lemma_after_adds(fewer, vals.drop_last());
        assert(!before.contains_key(keys.last())) by {
            if before.contains_key(keys.last()) {
                assert(fewer.contains(keys.last()));
                let i = choose|i: int| 0 <= i < fewer.len() && fewer[i] == keys.last();
                assert(keys[i] == keys[keys.len() - 1]);
            }
        }
        assert forall|i: int| 0 <= i < keys.len() implies after.contains_key(#[trigger] keys[i])
            && after[keys[i]] == vals[i] by {
            if i < fewer.len() {
                assert(fewer[i] == keys[i]);
                assert(vals.drop_last()[i] == vals[i]);
            }
        }
        assert forall|k: Seq<u8>| #[trigger] after.contains_key(k) implies keys.contains(k) by {
            if k == keys.last() {
                assert(keys[keys.len() - 1] == k);
            } else {
                assert(before.contains_key(k));
                assert(fewer.contains(k));
                let i = choose|i: int| 0 <= i < fewer.len() && fewer[i] == k;
                assert(keys[i] == k);
            }
        }
    }
}

/// Drain completeness: a run of a drain yields as many payloads as the map
/// has entries, and they are the payloads of its entries, each entry taken
/// once.
pub proof fn lemma_drain_complete<Data>(m: Map<Seq<u8>, Data>, out: Seq<Data>) -> (keys: Seq<
    Seq<u8>,
>)
    requires
        is_drain_of(m, out),
    ensures
        m.dom().finite(),
        out.len() == m.len(),
        keys.len() == out.len(),
        keys.no_duplicates(),
        forall|k: Seq<u8>| #[trigger] m.contains_key(k) ==> keys.contains(k),
        forall|i: int|
            0 <= i < out.len() ==> m.contains_key(#[trigger] keys[i]) && out[i] == m[keys[i]],
    decreases out.len(),
{
    if out.len() == 0 {
        Seq::empty()
    } else {
        let k = choose|k: Seq<u8>| #[trigger]
            m.contains_key(k) && m[k] == out.first() && is_drain_of(
                m.remove(k),
                out.drop_first(),
            );
        let rest = lemma_drain_complete(m.remove(k), out.drop_first());
        let keys = seq![k] + rest;
        assert(m.dom() =~= m.remove(k).dom().insert(k));
        assert forall|key: Seq<u8>| #[trigger] m.contains_key(key) implies keys.contains(key) by {
            if key == k {
                assert(keys[0] == key);
            } else {
                assert(m.remove(k).contains_key(key));
                assert(rest.contains(key));
                let i = choose|i: int| 0 <= i < rest.len() && rest[i] == key;
                assert(keys[i + 1] == key);
            }
        }
        assert forall|i: int| 0 <= i < out.len() implies m.contains_key(#[trigger] keys[i])
            && out[i] == m[keys[i]] by {
            if i > 0 {
                assert(keys[i] == rest[i - 1]);
                assert(out[i] == out.drop_first()[i - 1]);
                assert(m.remove(k).contains_key(rest[i - 1]));
            }
        }
        assert forall|i: int, j: int|
            0 <= i < keys.len() && 0 <= j < keys.len() && i != j implies keys[i] != keys[j] by {
            if i > 0 {
                assert(keys[i] == rest[i - 1]);
                assert(m.remove(k).contains_key(rest[i - 1]));
            }
            if j > 0 {
                assert(keys[j] == rest[j - 1]);
                assert(m.remove(k).contains_key(rest[j - 1]));
            }
        }
        keys
    }
}

/// Yields the payloads of a trie that was given up for it, each once, in no
/// particular order.
pub struct TrieDataIterator<Data> {
    /// The subtrees still to take apart.
    nodes: Vec<Node<Data>>,
    /// For each of them, the bytes that led to it.
    prefixes: Ghost<Seq<Seq<u8>>>,
}

/// Moves the children out of their table onto `nodes`, in no particular
/// order.
fn take_kids<Data>(
    children: HashMap<u8, Node<Data>>,
    nodes: &mut Vec<Node<Data>>,
    Ghost(node): Ghost<Node<Data>>,
) -> (kids: Ghost<Seq<Node<Data>>>)
    requires
        node.kids() == children@,
        node.kids_wf(),
    ensures
        is_kid_list(node, kids@),
        final(nodes)@ == old(nodes)@ + kids@,
{
    let mut children = children;
    let ghost base = nodes@;
    let ghost mut kids: Seq<Node<Data>> = Seq::empty();
    proof {
        assert(nodes@ =~= base + kids);
    }
    while !children.is_empty()
        invariant
            nodes@ == base + kids,
            node.kids_wf(),
            forall|b: u8| #[trigger]
                children@.contains_key(b) ==> node.kids().contains_key(b) && children@[b]
                    == node.kids()[b],
            forall|j: int|
                0 <= j < kids.len() ==> {
                    &&& (#[trigger] kids[j]).val@.len() > 0
                    &&& node.kids().contains_key(kids[j].val@[0])
                    &&& node.kids()[kids[j].val@[0]] == kids[j]
                    &&& !children@.contains_key(kids[j].val@[0])
                },
            forall|b: u8|
                node.kids().contains_key(b) && !(#[trigger] children@.contains_key(b))
                    ==> exists|j: int|
                    0 <= j < kids.len() && #[trigger] kids[j] == node.kids()[b] && kids[j].val@[0]
                        == b,
            forall|i: int, j: int|
                0 <= i < kids.len() && 0 <= j < kids.len() && i != j ==> (
                #[trigger] kids[i]).val@[0] != (#[trigger] kids[j]).val@[0],
        decreases children@.len(),
    {
        let ghost before = children@;
        let key = match any_key(&children) {
            Some(key) => key,
            None => {
                proof {
                    before.dom().lemma_len0_is_empty();
                }
                return Ghost(kids);
            },
        };
        match children.remove(&key) {
            Some(child) => {
                let ghost done = kids;
                proof {
                    kids = kids.push(child);
                    assert(child == node.kids()[key]);
                    assert(child.val@[0] == key);
                    assert forall|b: u8|
                        node.kids().contains_key(b) && !(#[trigger] children@.contains_key(b))
                        implies exists|j: int|
                        0 <= j < kids.len() && #[trigger] kids[j] == node.kids()[b]
                            && kids[j].val@[0] == b by {
                        if b == key {
                            assert(kids[kids.len() - 1] == node.kids()[b]);
                        } else {
                            assert(!before.contains_key(b));
                            let j = choose|j: int|
                                0 <= j < done.len() && #[trigger] done[j] == node.kids()[b]
                                    && done[j].val@[0] == b;
                            assert(kids[j] == done[j]);
                        }
                    }
                    assert forall|j: int| 0 <= j < kids.len() implies {
                        &&& (#[trigger] kids[j]).val@.len() > 0
                        &&& node.kids().contains_key(kids[j].val@[0])
                        &&& node.kids()[kids[j].val@[0]] == kids[j]
                        &&& !children@.contains_key(kids[j].val@[0])
                    } by {
                        if j < done.len() {
                            assert(kids[j] == done[j]);
                        }
                    }
                    assert forall|i: int, j: int|
                        0 <= i < kids.len() && 0 <= j < kids.len() && i != j implies (
                    #[trigger] kids[i]).val@[0] != (#[trigger] kids[j]).val@[0] by {
                        if i < done.len() {
                            assert(kids[i] == done[i]);
                        }
                        if j < done.len() {
                            assert(kids[j] == done[j]);
                        }
                    }
                }
                nodes.push(child);
                proof {
                    assert(nodes@ =~= base + kids);
                }
            },
            None => {
                return Ghost(kids);
            },
        }
    }
    proof {
        assert forall|b: u8| #[trigger] node.kids().contains_key(b) implies exists|j: int|
            0 <= j < kids.len() && #[trigger] kids[j] == node.kids()[b] && kids[j].val@[0]
                == b by {
            assert(children@.dom() =~= Set::empty());
            assert(!children@.contains_key(b));
        }
    }
    Ghost(kids)
}

impl<Data> TrieDataIterator<Data> {
    /// The subtrees still to take apart, as the traversal model sees them.
    pub(crate) closed spec fn frames(&self) -> Seq<(Seq<u8>, Node<Data>)> {
        Seq::new(self.nodes@.len(), |i: int| (self.prefixes@[i], self.nodes@[i]))
    }

    /// The subtrees still to take apart are in shape and do not overlap.
    pub closed spec fn wf(&self) -> bool {
        &&& self.prefixes@.len() == self.nodes@.len()
        &&& frames_wf(self.frames())
    }

    /// The entries whose payloads are still to come. The keys are not
    /// handed out; they tell the payloads apart.
    pub closed spec fn remaining(&self) -> Map<Seq<u8>, Data> {
        frames_map(self.frames())
    }

    /// The payload of some entry that has not been yielded yet, or nothing
    /// when all have been.
    pub fn next(&mut self) -> (res: Option<Data>)
        requires
            old(self).wf(),
        ensures
            final(self).wf(),
            match res {
                Some(data) => exists|k: Seq<u8>|
                    {
                        &&& #[trigger] old(self).remaining().contains_key(k)
                        &&& old(self).remaining()[k] == data
                        &&& final(self).remaining() == old(self).remaining().remove(k)
                    },
                None => {
                    &&& old(self).remaining() == Map::<Seq<u8>, Data>::empty()
                    &&& final(self).remaining() == Map::<Seq<u8>, Data>::empty()
                },
            },
    {
        loop
            invariant
                self.wf(),
                self.remaining() == old(self).remaining(),
            decreases frames_count(self.frames()),
        {
            let ghost before = self.frames();
            let node = match self.nodes.pop() {
                None => {
                    assert(self.remaining() =~= Map::<Seq<u8>, Data>::empty());
                    return None;
                },
                Some(node) => node,
            };
            let ghost top = (self.prefixes@.last(), node);
            let ghost full = top.0 + node.val@;
            proof {
                self.prefixes@ = self.prefixes@.drop_last();
            }
            let ghost rest = self.frames();
            proof {
                assert(before =~= rest.push(top));
            }
            let Node { val: _, children, data } = node;
            let ghost mut kids: Seq<Node<Data>> = Seq::empty();
            match children {
                Some(children) => {
                    let taken = take_kids(children, &mut self.nodes, Ghost(node));
                    proof {
                        kids = taken@;
                        self.prefixes@ = self.prefixes@ + Seq::new(kids.len(), |j: int| full);
                    }
                },
                None => {},
            }
            proof {
                assert(self.frames() =~= rest + kid_frames(top, kids));
                lemma_expand(rest, top, kids);
            }
            match data {
                Some(data) => {
                    assert(self.remaining() =~= old(self).remaining().remove(full));
                    assert(old(self).remaining().contains_key(full));
                    return Some(data);
                },
                None => {
                    assert(self.remaining() =~= old(self).remaining());
                },
            }
        }
    }
}

} // verus!
