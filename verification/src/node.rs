use crate::bytes::{common_prefix_len, joined, keys_with_prefix, lemma_common_prefix_len};
use crate::frames::{
    frames_lookup, frames_map, holds, lemma_frames_lookup_at, lemma_holds_covers,
};
use crate::sub_trie_iterator::SubTrieIterator;
use std::collections::hash_map::Entry;
use std::collections::HashMap;
use vstd::prelude::*;
use vstd::slice::{slice_subrange, slice_to_vec};

verus! {

/// A node of the compressed trie: the bytes on the edge that leads to it, the
/// children keyed by the first byte of their own edge, and the payload of the
/// key that ends here, if one does.
pub(crate) struct Node<Data> {
    pub(crate) val: Vec<u8>,
    pub(crate) children: Option<HashMap<u8, Node<Data>>>,
    pub(crate) data: Option<Data>,
}

/// Some key of the table, whichever comes first; none where it is empty.
pub(crate) fn any_key<V>(m: &HashMap<u8, V>) -> (res: Option<u8>)
    ensures
        match res {
            Some(k) => m@.contains_key(k),
            None => m@.len() == 0,
        },
{
    for k in it: m.keys()
        invariant
            it.index() == 0,
    {
        return Some(*k);
    }
    None
}

impl<Data> Node<Data> {
    /// The children as a map; a node without a table has none.
    pub(crate) open spec fn kids(self) -> Map<u8, Node<Data>> {
        match self.children {
            Some(m) => m@,
            None => Map::empty(),
        }
    }

    /// The payload stored under `key`, where `key` is read from the start of
    /// this node's own label.
    pub(crate) open spec fn lookup(self, key: Seq<u8>) -> Option<Data>
        decreases self,
    {
        if key == self.val@ {
            self.data
        } else if self.val@.is_prefix_of(key) {
            let rest = key.skip(self.val@.len() as int);
            if self.kids().contains_key(rest[0]) {
                self.kids()[rest[0]].lookup(rest)
            } else {
                None
            }
        } else {
            None
        }
    }

    /// Everything stored at or below this node, keyed from the start of its
    /// label.
    pub(crate) open spec fn as_map(self) -> Map<Seq<u8>, Data> {
        Map::new(|k: Seq<u8>| self.lookup(k) is Some, |k: Seq<u8>| self.lookup(k)->0)
    }

    /// The shape that every reachable node keeps: each child sits under the
    /// first byte of its own non-empty label and is itself in shape, and the
    /// node either carries a payload or forks into at least two children.
    pub(crate) open spec fn inner_wf(self) -> bool
        decreases self, 1nat,
    {
        &&& self.kids_wf()
        &&& (self.data is Some || self.kids().len() >= 2)
    }

    /// Every child sits under the first byte of its own non-empty label and
    /// is in shape.
    pub(crate) open spec fn kids_wf(self) -> bool
        decreases self, 0nat,
    {
        forall|b: u8| #[trigger]
            self.kids().contains_key(b) ==> {
                &&& self.kids()[b].val@.len() > 0
                &&& self.kids()[b].val@[0] == b
                &&& self.kids()[b].inner_wf()
            }
    }

    /// Number of nodes in the subtrees of the children keyed below `n`.
    pub(crate) open spec fn count_below(self, n: nat) -> nat
        decreases self, n,
    {
        if n == 0 {
            0
        } else {
            let b = (n - 1) as u8;
            self.count_below((n - 1) as nat) + if n <= 256 && self.kids().contains_key(b) {
                self.kids()[b].count()
            } else {
                0
            }
        }
    }

    /// Number of nodes in the subtree rooted here, this node included.
    pub(crate) open spec fn count(self) -> nat
        decreases self, 257nat,
    {
        1 + self.count_below(256)
    }

    /// Number of nodes under the child keyed `b`, none where there is no such child.
    pub(crate) open spec fn kid_count(self, b: u8) -> nat {
        if self.kids().contains_key(b) {
            self.kids()[b].count()
        } else {
            0
        }
    }

    /// Two nodes whose children differ at most under `key` have counts that
    /// differ by what hangs under `key`.
    pub(crate) proof fn lemma_count_below_differs_at(self, other: Self, key: u8, n: nat)
        requires
            n <= 256,
            forall|b: u8|
                b != key ==> (#[trigger] self.kids().contains_key(b)
                    == other.kids().contains_key(b)),
            forall|b: u8|
                b != key && #[trigger] self.kids().contains_key(b) ==> self.kids()[b]
                    == other.kids()[b],
        ensures
            self.count_below(n) + (if key < n {
                other.kid_count(key)
            } else {
                0
            }) == other.count_below(n) + (if key < n {
                self.kid_count(key)
            } else {
                0
            }),
        decreases n,
    {
        if n > 0 {
            self.lemma_count_below_differs_at(other, key, (n - 1) as nat);
            let b = (n - 1) as u8;
            if b != key {
                assert(self.kids().contains_key(b) == other.kids().contains_key(b));
            }
        }
    }

    /// Cutting a label in two changes no lookup and adds one node.
    pub(crate) proof fn lemma_split(self, whole: Self, at: int)
        requires
            self.is_split_of(whole, at),
        ensures
            forall|k: Seq<u8>|
                #![trigger self.lookup(k)]
                #![trigger whole.lookup(k)]
                self.lookup(k) == whole.lookup(k),
            self.count() == whole.count() + 1,
            whole.inner_wf() ==> self.kids_wf(),
    {
        let b = whole.val@[at];
        let c = self.kids()[b];
        assert(self.kids().contains_key(b));
        if whole.inner_wf() {
            assert(c.kids_wf());
            assert(c.inner_wf());
        }
        assert forall|k: Seq<u8>| #[trigger] self.lookup(k) == whole.lookup(k) by {
            let head = whole.val@.take(at);
            let tail = whole.val@.skip(at);
            let full = whole.val@;
            assert(full =~= head + tail);
            if k == head {
                assert(!full.is_prefix_of(k));
            } else if head.is_prefix_of(k) {
                let rest = k.skip(at);
                assert(k =~= head + rest);
                assert(rest[0] == k[at]);
                if rest[0] == b {
                    assert(self.lookup(k) == c.lookup(rest));
                    if rest == tail {
                        assert(k == full);
                    } else if tail.is_prefix_of(rest) {
                        assert(tail =~= rest.subrange(0, tail.len() as int));
                        assert(full =~= k.subrange(0, full.len() as int));
                        assert(full.is_prefix_of(k));
                        assert(rest.skip(tail.len() as int) =~= k.skip(full.len() as int));
                    } else {
                        if full.is_prefix_of(k) {
                            assert(full =~= k.subrange(0, full.len() as int));
                            assert(tail =~= rest.subrange(0, tail.len() as int));
                        }
                    }
                } else {
                    assert(!self.kids().contains_key(rest[0]));
                    if full.is_prefix_of(k) {
                        assert(full[at] == k.subrange(0, full.len() as int)[at]);
                    }
                }
            } else {
                if full.is_prefix_of(k) {
                    assert(head =~= k.subrange(0, head.len() as int));
                }
            }
        }
        c.lemma_count_below_differs_at(whole, 0, 256);
        let empty = Node::<Data> { val: self.val, children: None, data: None };
        self.lemma_count_below_differs_at(empty, b, 256);
        empty.lemma_count_below_zero(256);
    }

    /// A node without children has nothing below it.
    pub(crate) proof fn lemma_count_below_zero(self, n: nat)
        requires
            self.kids().dom() =~= Set::empty(),
        ensures
            self.count_below(n) == 0,
        decreases n,
    {
        if n > 0 {
            self.lemma_count_below_zero((n - 1) as nat);
        }
    }

    /// `k` runs through this node's label and goes on with the byte `b`.
    pub(crate) open spec fn routes_to(self, k: Seq<u8>, b: u8) -> bool {
        &&& self.val@.is_prefix_of(k)
        &&& k.len() > self.val@.len()
        &&& k[self.val@.len() as int] == b
    }

    /// What the child keyed `b` stores under `t`; nothing where there is no
    /// such child.
    pub(crate) open spec fn kid_lookup(self, b: u8, t: Seq<u8>) -> Option<Data> {
        if self.kids().contains_key(b) {
            self.kids()[b].lookup(t)
        } else {
            None
        }
    }

    /// A lookup that runs past the label is answered by the child it routes to.
    pub(crate) proof fn lemma_lookup_routes(self, k: Seq<u8>, b: u8)
        requires
            self.routes_to(k, b),
        ensures
            self.lookup(k) == self.kid_lookup(b, k.skip(self.val@.len() as int)),
    {
        assert(k.skip(self.val@.len() as int)[0] == k[self.val@.len() as int]);
    }

    /// Replacing the payload changes the lookup of the node's own label and
    /// nothing else.
    pub(crate) proof fn lemma_data_changed(self, other: Self)
        requires
            self.val@ == other.val@,
            self.kids() == other.kids(),
        ensures
            forall|k: Seq<u8>| #[trigger]
                other.lookup(k) == if k == self.val@ {
                    other.data
                } else {
                    self.lookup(k)
                },
            other.count() == self.count(),
    {
        self.lemma_count_below_differs_at(other, 0, 256);
    }

    /// Replacing, adding or removing the child keyed `key` changes only the
    /// lookups that route to it.
    pub(crate) proof fn lemma_kid_changed(self, other: Self, key: u8)
        requires
            self.val@ == other.val@,
            self.data == other.data,
            forall|b: u8|
                b != key ==> (#[trigger] self.kids().contains_key(b)
                    == other.kids().contains_key(b)),
            forall|b: u8|
                b != key && #[trigger] self.kids().contains_key(b) ==> self.kids()[b]
                    == other.kids()[b],
        ensures
            forall|k: Seq<u8>|
                !self.routes_to(k, key) ==> #[trigger] other.lookup(k) == self.lookup(k),
            other.count() + self.kid_count(key) == self.count() + other.kid_count(key),
    {
        self.lemma_count_below_differs_at(other, key, 256);
        assert forall|k: Seq<u8>| !self.routes_to(k, key) implies #[trigger] other.lookup(k)
            == self.lookup(k) by {
            if k != self.val@ && self.val@.is_prefix_of(k) {
                assert(k.len() > self.val@.len()) by {
                    if k.len() == self.val@.len() {
                        assert(k =~= self.val@);
                    }
                }
                let rest = k.skip(self.val@.len() as int);
                assert(rest[0] == k[self.val@.len() as int]);
                assert(rest[0] != key);
                assert(self.kids().contains_key(rest[0]) == other.kids().contains_key(rest[0]));
            }
        }
    }

    /// Where the child under the first byte of `rest` changes what it stores
    /// under `rest` and nothing else, the node changes what it stores under
    /// its label followed by `rest` and nothing else.
    pub(crate) proof fn lemma_kid_updated(self, other: Self, rest: Seq<u8>, v: Option<Data>)
        requires
            rest.len() > 0,
            self.val@ == other.val@,
            self.data == other.data,
            forall|b: u8|
                b != rest[0] ==> (#[trigger] self.kids().contains_key(b)
                    == other.kids().contains_key(b)),
            forall|b: u8|
                b != rest[0] && #[trigger] self.kids().contains_key(b) ==> self.kids()[b]
                    == other.kids()[b],
            forall|t: Seq<u8>| #[trigger]
                other.kid_lookup(rest[0], t) == if t == rest {
                    v
                } else {
                    self.kid_lookup(rest[0], t)
                },
        ensures
            forall|k: Seq<u8>| #[trigger]
                other.lookup(k) == if k == self.val@ + rest {
                    v
                } else {
                    self.lookup(k)
                },
            self.lookup(self.val@ + rest) == self.kid_lookup(rest[0], rest),
            other.count() + self.kid_count(rest[0]) == self.count() + other.kid_count(rest[0]),
    {
        let key = rest[0];
        let n = self.val@.len() as int;
        let full = self.val@ + rest;
        self.lemma_kid_changed(other, key);
        assert(full.skip(n) =~= rest);
        assert(self.val@ =~= full.subrange(0, n));
        assert(self.routes_to(full, key));
        self.lemma_lookup_routes(full, key);
        assert forall|k: Seq<u8>| #[trigger]
            other.lookup(k) == if k == full {
                v
            } else {
                self.lookup(k)
            } by {
            if self.routes_to(k, key) {
                self.lemma_lookup_routes(k, key);
                other.lemma_lookup_routes(k, key);
                let tail = k.skip(n);
                assert(k =~= self.val@ + tail);
                assert(other.lookup(k) == other.kid_lookup(key, tail));
            }
        }
    }

    /// `self` is what `whole` becomes when its label is cut at `at`: the head
    /// of the label stays, and a single child takes the tail together with
    /// the payload and the children.
    pub(crate) open spec fn is_split_of(self, whole: Self, at: int) -> bool {
        let b = whole.val@[at];
        &&& 0 <= at < whole.val@.len()
        &&& self.val@ == whole.val@.take(at)
        &&& self.data is None
        &&& self.kids().dom() == set![b]
        &&& self.kids()[b].val@ == whole.val@.skip(at)
        &&& self.kids()[b].kids() == whole.kids()
        &&& self.kids()[b].data == whole.data
    }

    /// Cuts the label at `index` and moves the rest of the node one level down.
    fn split(&mut self, index: usize)
        requires
            index < old(self).val@.len(),
        ensures
            final(self).is_split_of(*old(self), index as int),
    {
        let second_val = self.val.split_off(index);
        let b = second_val[0];
        let mut new_children = HashMap::new();
        new_children.insert(
            b,
            Node { val: second_val, children: self.children.take(), data: self.data.take() },
        );
        self.children = Some(new_children);
        assert(self.kids().dom() =~= set![b]);
    }

    /// Stores `data` under `val`, read from the start of this node's label,
    /// and returns the payload that was there before together with the
    /// number of nodes that had to be created.
    pub(crate) fn add(&mut self, val: &[u8], data: Data) -> (res: (Option<Data>, usize))
        requires
            old(self).inner_wf(),
        ensures
            final(self).inner_wf(),
            res.0 == old(self).lookup(val@),
            forall|k: Seq<u8>| #[trigger]
                final(self).lookup(k) == if k == val@ {
                    Some(data)
                } else {
                    old(self).lookup(k)
                },
            final(self).count() == old(self).count() + res.1,
            res.1 <= 2,
            res.0 is Some ==> res.1 == 0,
            final(self).val@.is_prefix_of(old(self).val@),
            old(self).val@.len() > 0 && val@.len() > 0 && old(self).val@[0] == val@[0]
                ==> final(self).val@.len() > 0,
        decreases
            val@.len(),
            (if old(self).val@.len() == 0 {
                1nat
            } else {
                0nat
            }),
    {
        let ghost before = *self;
        let p = common_prefix_len(self.val.as_slice(), val);
        proof {
            lemma_common_prefix_len(self.val@, val@, p as int);
        }
        let mut created: usize = 0;
        if p < self.val.len() {
            self.split(p);
            proof {
                self.lemma_split(before, p as int);
            }
            if p == val.len() {
                let ghost cut = *self;
                self.data = Some(data);
                proof {
                    cut.lemma_data_changed(*self);
                    assert(self.val@ =~= val@);
                }
                return (None, 1);
            }
            created = 1;
        }
        proof {
            lemma_common_prefix_len(self.val@, val@, p as int);
        }
        if val.len() == p {
            let ghost cut = *self;
            let ret = self.data.take();
            self.data = Some(data);
            proof {
                cut.lemma_data_changed(*self);
            }
            return (ret, 0);
        }
        let rest = slice_subrange(val, p, val.len());
        let b = rest[0];
        let ghost cut = *self;
        if self.children.is_none() {
            self.children = Some(HashMap::new());
        }
        let ghost middle = *self;
        proof {
            cut.lemma_data_changed(middle);
            assert(middle.kids_wf());
        }
        let children = self.children.as_mut().unwrap();
        let res = match children.entry(b) {
            Entry::Occupied(e) => {
                let child = e.into_mut();
                let r = child.add(rest, data);
                (r.0, r.1 + created)
            },
            Entry::Vacant(e) => {
                e.insert(Node { val: slice_to_vec(rest), children: None, data: Some(data) });
                (None, 1 + created)
            },
        };
        proof {
            let fresh = self.kids()[b];
            assert(self.kids() =~= middle.kids().insert(b, fresh));
            assert(val@ =~= middle.val@ + rest@);
            if middle.kids().contains_key(b) {
                let prior = middle.kids()[b];
                assert(fresh.val@ =~= prior.val@.subrange(0, fresh.val@.len() as int));
                assert(fresh.val@[0] == prior.val@[0]);
            } else {
                fresh.lemma_count_below_zero(256);
                assert(fresh.kids_wf());
                assert(forall|t: Seq<u8>| t != rest@ ==> #[trigger] fresh.lookup(t) is None);
            }
            middle.lemma_kid_updated(*self, rest@, Some(data));
            assert(self.kids_wf()) by {
                assert forall|c: u8| #[trigger] self.kids().contains_key(c) implies {
                    &&& self.kids()[c].val@.len() > 0
                    &&& self.kids()[c].val@[0] == c
                    &&& self.kids()[c].inner_wf()
                } by {
                    if c != b {
                        assert(middle.kids().contains_key(c));
                    }
                }
            }
            if created == 1 {
                let other = before.val@[p as int];
                assert(middle.kids().dom() =~= set![other]);
                assert(self.kids().dom() =~= set![other].insert(b));
            }
        }
        res
    }

    /// The payload stored under `val`, read from the start of this node's
    /// label, if there is one.
    pub(crate) fn get(&self, val: &[u8]) -> (res: Option<&Data>)
        ensures
            match res {
                Some(d) => self.lookup(val@) == Some(*d),
                None => self.lookup(val@) is None,
            },
        decreases self,
    {
        let n = self.val.len();
        let p = common_prefix_len(self.val.as_slice(), val);
        proof {
            lemma_common_prefix_len(self.val@, val@, p as int);
        }
        if p < n {
            return None;
        }
        if val.len() == n {
            return self.data.as_ref();
        }
        let rest = slice_subrange(val, n, val.len());
        assert(rest@ == val@.skip(n as int));
        match &self.children {
            None => None,
            Some(m) => match m.get(&rest[0]) {
                None => None,
                Some(child) => child.get(rest),
            },
        }
    }

    /// Mutable access to the payload stored under `val`, if there is one.
    pub(crate) fn get_mut(&mut self, val: &[u8]) -> (res: Option<&mut Data>)
        ensures
            final(self).val@ == old(self).val@,
            final(self).count() == old(self).count(),
            old(self).inner_wf() ==> final(self).inner_wf(),
            match res {
                Some(d) => {
                    &&& old(self).lookup(val@) == Some(*d)
                    &&& forall|k: Seq<u8>| #[trigger]
                        final(self).lookup(k) == if k == val@ {
                            Some(*final(d))
                        } else {
                            old(self).lookup(k)
                        }
                },
                None => {
                    &&& old(self).lookup(val@) is None
                    &&& forall|k: Seq<u8>| #[trigger] final(self).lookup(k) == old(self).lookup(k)
                },
            },
        decreases *old(self),
    {
        let ghost before = *self;
        let ghost after = *final(self);
        let p = common_prefix_len(self.val.as_slice(), val);
        proof {
            lemma_common_prefix_len(self.val@, val@, p as int);
        }
        if p < self.val.len() {
            return None;
        }
        if val.len() == p {
            let res = self.data.as_mut();
            proof {
                before.lemma_data_changed(after);
            }
            return res;
        }
        let rest = slice_subrange(val, p, val.len());
        let b = rest[0];
        proof {
            assert(val@ =~= before.val@ + rest@);
        }
        match self.children.as_mut() {
            None => {
                proof {
                    before.lemma_kid_updated(after, rest@, None);
                }
                None
            },
            Some(children) => match children.entry(b) {
                Entry::Occupied(e) => {
                    let child = e.into_mut();
                    let ghost fresh = *final(child);
                    let res = child.get_mut(rest);
                    proof {
                        assert(after.kids() =~= before.kids().insert(b, fresh));
                        before.lemma_kid_updated(after, rest@, fresh.lookup(rest@));
                        if before.inner_wf() {
                            assert(after.kids_wf()) by {
                                assert forall|c: u8| #[trigger]
                                    after.kids().contains_key(c) implies {
                                    &&& after.kids()[c].val@.len() > 0
                                    &&& after.kids()[c].val@[0] == c
                                    &&& after.kids()[c].inner_wf()
                                } by {
                                    assert(before.kids().contains_key(c));
                                }
                            }
                            assert(after.kids().dom() =~= before.kids().dom());
                        }
                    }
                    res
                },
                Entry::Vacant(_) => {
                    proof {
                        assert(after.kids() =~= before.kids());
                        before.lemma_kid_updated(after, rest@, None);
                    }
                    None
                },
            },
        }
    }

    /// Where the node holds no payload and has exactly one child, takes that
    /// child's place: the child's label is appended to the node's own, and
    /// its payload and children become the node's. Says whether it did.
    fn try_join_with_single_child(&mut self) -> (joined: bool)
        requires
            old(self).kids_wf(),
        ensures
            joined == (old(self).data is None && old(self).kids().len() == 1),
            joined ==> old(self).is_split_of(*final(self), old(self).val@.len() as int),
            joined ==> final(self).inner_wf(),
            !joined ==> *final(self) == *old(self),
    {
        if self.data.is_some() {
            return false;
        }
        let mut children = match self.children.take() {
            None => {
                return false;
            },
            Some(children) => children,
        };
        if children.len() != 1 {
            self.children = Some(children);
            return false;
        }
        let key = match any_key(&children) {
            Some(key) => key,
            None => {
                self.children = Some(children);
                return false;
            },
        };
        proof {
            let dom = children@.dom();
            dom.remove(key).lemma_len0_is_empty();
            assert(dom =~= set![key]);
        }
        let mut child = match children.remove(&key) {
            Some(child) => child,
            None => {
                self.children = Some(children);
                return false;
            },
        };
        let ghost kid = child;
        self.data = child.data;
        self.children = child.children;
        self.val.append(&mut child.val);
        proof {
            let at = old(self).val@.len() as int;
            assert(self.val@.take(at) =~= old(self).val@);
            assert(self.val@.skip(at) =~= kid.val@);
            assert(self.val@[at] == kid.val@[0]);
            assert(old(self).kids().contains_key(key));
            assert(kid.inner_wf());
            assert(kid.kids_wf());
            assert(self.kids_wf());
        }
        true
    }

    /// The node holds nothing any more: no payload and no child.
    pub(crate) open spec fn is_bare(self) -> bool {
        self.data is None && self.kids().len() == 0
    }

    /// Whether the node has no child.
    fn has_no_child(&self) -> (res: bool)
        ensures
            res == (self.kids().len() == 0),
    {
        match &self.children {
            None => true,
            Some(children) => children.is_empty(),
        }
    }

    /// Removes the payload stored under `val`, read from the start of this
    /// node's label. Returns it together with whether the node is left bare
    /// and has to be detached by its parent, and the number of nodes that
    /// were given up below it. Returns nothing, and changes nothing, where
    /// no payload is stored under `val`.
    pub(crate) fn del(&mut self, val: &[u8]) -> (res: Option<(Data, bool, usize)>)
        requires
            old(self).inner_wf(),
        ensures
            old(self).val@.is_prefix_of(final(self).val@),
            final(self).kids_wf(),
            match res {
                None => {
                    &&& old(self).lookup(val@) is None
                    &&& forall|k: Seq<u8>| #[trigger] final(self).lookup(k) == old(self).lookup(k)
                    &&& final(self).count() == old(self).count()
                    &&& final(self).inner_wf()
                },
                Some((d, detach, removed)) => {
                    &&& old(self).lookup(val@) == Some(d)
                    &&& forall|k: Seq<u8>| #[trigger]
                        final(self).lookup(k) == if k == val@ {
                            None
                        } else {
                            old(self).lookup(k)
                        }
                    &&& final(self).count() + removed == old(self).count()
                    &&& removed <= 2
                    &&& detach ==> removed == 0
                    &&& detach == final(self).is_bare()
                    &&& !detach ==> final(self).inner_wf()
                },
            },
        decreases
            val@.len(),
            (if old(self).val@.len() == 0 {
                1nat
            } else {
                0nat
            }),
    {
        let ghost before = *self;
        let ghost after = *final(self);
        let p = common_prefix_len(self.val.as_slice(), val);
        proof {
            lemma_common_prefix_len(self.val@, val@, p as int);
        }
        if p < self.val.len() {
            return None;
        }
        if val.len() == p {
            let data = match self.data.take() {
                None => {
                    return None;
                },
                Some(data) => data,
            };
            let ghost emptied = *self;
            proof {
                before.lemma_data_changed(emptied);
            }
            let joined = self.try_join_with_single_child();
            proof {
                if joined {
                    emptied.lemma_split(*self, p as int);
                    assert(emptied.val@ =~= self.val@.subrange(0, p as int));
                }
            }
            let detach = self.data.is_none() && self.has_no_child();
            return Some((data, detach, if joined { 1 } else { 0 }));
        }
        let rest = slice_subrange(val, p, val.len());
        let b = rest[0];
        proof {
            assert(val@ =~= before.val@ + rest@);
        }
        let ghost mut kid = before;
        let (data, detached, removed) = match self.children.as_mut() {
            None => {
                proof {
                    before.lemma_kid_updated(before, rest@, None);
                }
                return None;
            },
            Some(children) => match children.entry(b) {
                Entry::Vacant(_) => {
                    proof {
                        assert(after.kids() =~= before.kids());
                        before.lemma_kid_updated(after, rest@, None);
                        before.lemma_kids_kept(after, b);
                    }
                    return None;
                },
                Entry::Occupied(mut e) => {
                    let child = e.get_mut();
                    let ghost prior = *child;
                    assert(before.kids().contains_key(b) && prior == before.kids()[b]);
                    match child.del(rest) {
                        None => {
                            proof {
                                let same = *child;
                                assert(after.kids() =~= before.kids().insert(b, same));
                                before.lemma_kid_updated(after, rest@, None);
                                before.lemma_kids_kept(after, b);
                            }
                            return None;
                        },
                        Some((data, detach, removed)) => {
                            proof {
                                kid = *child;
                            }
                            if detach {
                                e.remove();
                                (data, true, removed + 1)
                            } else {
                                (data, false, removed)
                            }
                        },
                    }
                },
            },
        };
        let ghost middle = *self;
        proof {
            let prior = before.kids()[b];
            if detached {
                assert(middle.kids() =~= before.kids().remove(b));
                kid.lemma_count_below_zero(256);
                assert forall|t: Seq<u8>| t != rest@ implies #[trigger] prior.lookup(t)
                    is None by {
                    assert(kid.lookup(t) is None);
                }
            } else {
                assert(middle.kids() =~= before.kids().insert(b, kid));
            }
            before.lemma_kid_updated(middle, rest@, None);
            before.lemma_kids_kept(middle, b);
        }
        let joined = detached && self.try_join_with_single_child();
        proof {
            if joined {
                middle.lemma_split(*self, p as int);
                assert(middle.val@ =~= self.val@.subrange(0, p as int));
            }
        }
        let detach = self.data.is_none() && self.has_no_child();
        Some((data, detach, if joined { removed + 1 } else { removed }))
    }

    /// A node stays in shape when the child keyed `key` is replaced by one
    /// in shape whose label starts like the old one, or changes by no more
    /// than one child; it may then be left with too few children.
    pub(crate) proof fn lemma_kids_kept(self, other: Self, key: u8)
        requires
            self.kids_wf(),
            forall|b: u8|
                b != key && #[trigger] other.kids().contains_key(b) ==> self.kids().contains_key(
                    b,
                ) && self.kids()[b] == other.kids()[b],
            other.kids().contains_key(key) ==> {
                &&& self.kids().contains_key(key)
                &&& self.kids()[key].val@.is_prefix_of(other.kids()[key].val@)
                &&& other.kids()[key].inner_wf()
            },
        ensures
            other.kids_wf(),
    {
        assert forall|c: u8| #[trigger] other.kids().contains_key(c) implies {
            &&& other.kids()[c].val@.len() > 0
            &&& other.kids()[c].val@[0] == c
            &&& other.kids()[c].inner_wf()
        } by {
            assert(self.kids().contains_key(c));
            if c == key {
                let short = self.kids()[c].val@;
                let long = other.kids()[c].val@;
                assert(short[0] == long.subrange(0, short.len() as int)[0]);
            }
        }
    }

    /// An iterator over what is stored at or below this node under keys
    /// that start with `val`, read from the start of this node's label.
    /// `prefixes` holds the labels on the way from the root to this node;
    /// the iterator yields whole keys.
    pub(crate) fn find<'trie>(&'trie self, val: &[u8], prefixes: Vec<&'trie [u8]>) -> (it:
        SubTrieIterator<'trie, Data>)
        requires
            self.kids_wf(),
        ensures
            it.wf(),
            it.remaining() == frames_map(seq![(joined(prefixes@), *self)]).restrict(
                keys_with_prefix(joined(prefixes@) + val@),
            ),
        decreases self,
    {
        let ghost pre = joined(prefixes@);
        let ghost whole = frames_map(seq![(pre, *self)]);
        let p = common_prefix_len(self.val.as_slice(), val);
        proof {
            lemma_common_prefix_len(self.val@, val@, p as int);
            assert forall|k: Seq<u8>| #[trigger]
                frames_lookup(seq![(pre, *self)], k) == holds((pre, *self), k) by {
                lemma_frames_lookup_at(seq![(pre, *self)], k, 0);
            }
        }
        if p == val.len() {
            let it = SubTrieIterator::from_node_and_prefixes(self, prefixes);
            proof {
                assert forall|k: Seq<u8>| #[trigger] whole.contains_key(k) implies (pre
                    + val@).is_prefix_of(k) by {
                    lemma_holds_covers((pre, *self), k);
                    lemma_prefix_chain(pre, val@, self.val@, k);
                }
                assert(whole =~= whole.restrict(keys_with_prefix(pre + val@)));
            }
            return it;
        }
        if p < self.val.len() {
            proof {
                assert forall|k: Seq<u8>| #[trigger] whole.contains_key(k) implies !(pre
                    + val@).is_prefix_of(k) by {
                    lemma_holds_covers((pre, *self), k);
                    if (pre + val@).is_prefix_of(k) {
                        let a = pre + val@;
                        let b = pre + self.val@;
                        assert(a[pre.len() + p] == k.subrange(0, a.len() as int)[pre.len() + p]);
                        assert(b[pre.len() + p] == k.subrange(0, b.len() as int)[pre.len() + p]);
                    }
                }
                assert(whole.restrict(keys_with_prefix(pre + val@)) =~= Map::<
                    Seq<u8>,
                    Data,
                >::empty());
            }
            return SubTrieIterator::empty();
        }
        let ghost given = prefixes@;
        let mut prefixes = prefixes;
        prefixes.push(self.val.as_slice());
        let rest = slice_subrange(val, p, val.len());
        let b = rest[0];
        proof {
            assert(prefixes@.drop_last() =~= given);
            assert(joined(prefixes@) == pre + self.val@);
            assert(pre + self.val@ + rest@ =~= pre + val@);
            assert forall|k: Seq<u8>| (pre + val@).is_prefix_of(k) implies {
                let t = k.skip(pre.len() as int);
                &&& pre.is_prefix_of(k)
                &&& (pre + self.val@).is_prefix_of(k)
                &&& self.routes_to(t, b)
                &&& k.skip((pre + self.val@).len() as int) == t.skip(self.val@.len() as int)
            } by {
                let a = pre + val@;
                let t = k.skip(pre.len() as int);
                assert(a =~= k.subrange(0, a.len() as int));
                assert(pre =~= k.subrange(0, pre.len() as int)) by {
                    assert forall|i: int| 0 <= i < pre.len() implies pre[i] == k[i] by {
                        assert(a[i] == k.subrange(0, a.len() as int)[i]);
                    }
                }
                assert(self.val@ =~= t.subrange(0, self.val@.len() as int)) by {
                    assert forall|i: int| 0 <= i < self.val@.len() implies self.val@[i]
                        == t[i] by {
                        assert(a[pre.len() + i] == k.subrange(0, a.len() as int)[pre.len() + i]);
                    }
                }
                assert((pre + self.val@) =~= k.subrange(0, (pre + self.val@).len() as int));
                assert(a[pre.len() + p] == k.subrange(0, a.len() as int)[pre.len() + p]);
                assert(k.skip((pre + self.val@).len() as int) =~= t.skip(self.val@.len() as int));
            }
        }
        let found = match &self.children {
            Some(children) => children.get(&b),
            None => None,
        };
        match found {
            Some(child) => {
                let it = child.find(rest, prefixes);
                proof {
                    let below = frames_map(seq![(pre + self.val@, *child)]);
                    assert forall|k: Seq<u8>| #[trigger]
                        frames_lookup(seq![(pre + self.val@, *child)], k) == holds(
                            (pre + self.val@, *child),
                            k,
                        ) by {
                        lemma_frames_lookup_at(seq![(pre + self.val@, *child)], k, 0);
                    }
                    assert forall|k: Seq<u8>| (pre + val@).is_prefix_of(k) implies holds(
                        (pre, *self),
                        k,
                    ) == holds((pre + self.val@, *child), k) by {
                        self.lemma_lookup_routes(k.skip(pre.len() as int), b);
                    }
                    assert(it.remaining() =~= whole.restrict(keys_with_prefix(pre + val@)));
                }
                it
            },
            None => {
                proof {
                    assert forall|k: Seq<u8>| (pre + val@).is_prefix_of(k) implies holds(
                        (pre, *self),
                        k,
                    ) is None by {
                        self.lemma_lookup_routes(k.skip(pre.len() as int), b);
                    }
                    assert(whole.restrict(keys_with_prefix(pre + val@)) =~= Map::<
                        Seq<u8>,
                        Data,
                    >::empty());
                }
                SubTrieIterator::empty()
            },
        }
    }
}

/// A stored key starts with the label of the node it is stored under.
pub(crate) proof fn lemma_lookup_some_prefix<Data>(node: Node<Data>, t: Seq<u8>)
    requires
        node.lookup(t) is Some,
    ensures
        node.val@.is_prefix_of(t),
{
    if t == node.val@ {
        assert(node.val@ =~= t.subrange(0, node.val@.len() as int));
    }
}

/// A node in shape stores at least one key at or below it.
pub(crate) proof fn lemma_stores_a_key<Data>(node: Node<Data>) -> (k: Seq<u8>)
    requires
        node.inner_wf(),
    ensures
        node.lookup(k) is Some,
    decreases node,
{
    if node.data is Some {
        node.val@
    } else {
        let dom = node.kids().dom();
        assert(dom.len() >= 2);
        let b = dom.choose();
        assert(dom.contains(b)) by {
            if dom =~= Set::empty() {
                assert(dom.len() == 0);
            }
        }
        assert(node.kids().contains_key(b));
        let kid = node.kids()[b];
        let t = lemma_stores_a_key(kid);
        lemma_lookup_some_prefix(kid, t);
        assert(kid.val@[0] == t.subrange(0, kid.val@.len() as int)[0]);
        let k = node.val@ + t;
        assert(node.val@ =~= k.subrange(0, node.val@.len() as int));
        assert(k.skip(node.val@.len() as int) =~= t);
        assert(node.routes_to(k, b));
        node.lemma_lookup_routes(k, b);
        k
    }
}

/// A key that starts with `pre` followed by `long` starts with `pre`
/// followed by any prefix `short` of `long`.
pub(crate) proof fn lemma_prefix_chain(pre: Seq<u8>, short: Seq<u8>, long: Seq<u8>, k: Seq<u8>)
    requires
        short.is_prefix_of(long),
        (pre + long).is_prefix_of(k),
    ensures
        (pre + short).is_prefix_of(k),
{
    let a = pre + short;
    let b = pre + long;
    assert(a =~= k.subrange(0, a.len() as int)) by {
        assert forall|i: int| 0 <= i < a.len() implies a[i] == k[i] by {
            assert(b[i] == k.subrange(0, b.len() as int)[i]);
            if i >= pre.len() {
                assert(short[i - pre.len()] == long.subrange(0, short.len() as int)[i - pre.len()]);
            }
        }
    }
}

} // verus!
