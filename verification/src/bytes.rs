use vstd::prelude::*;
use vstd::slice::slice_to_vec;

verus! {

/// `p` is the length of the longest common prefix of `a` and `b`.
pub(crate) open spec fn is_common_prefix_len(a: Seq<u8>, b: Seq<u8>, p: int) -> bool {
    &&& 0 <= p <= a.len()
    &&& p <= b.len()
    &&& forall|i: int| 0 <= i < p ==> a[i] == b[i]
    &&& (p < a.len() && p < b.len() ==> a[p] != b[p])
}

/// Length of the longest common prefix of two byte strings.
pub(crate) fn common_prefix_len(a: &[u8], b: &[u8]) -> (p: usize)
    ensures
        is_common_prefix_len(a@, b@, p as int),
{
    let mut i: usize = 0;
    while i < a.len() && i < b.len() && a[i] == b[i]
        invariant
            i <= a.len(),
            i <= b.len(),
            forall|j: int| 0 <= j < i ==> a@[j] == b@[j],
        decreases a.len() - i,
    {
        i += 1;
    }
    i
}

/// The keys that start with `prefix`.
pub open spec fn keys_with_prefix(prefix: Seq<u8>) -> Set<Seq<u8>> {
    Set::new(|k: Seq<u8>| prefix.is_prefix_of(k))
}

/// The byte strings of `parts`, one after the other.
pub(crate) open spec fn joined(parts: Seq<&[u8]>) -> Seq<u8>
    decreases parts.len(),
{
    if parts.len() == 0 {
        Seq::empty()
    } else {
        joined(parts.drop_last()) + parts.last()@
    }
}

/// The byte strings of `parts`, one after the other, in one vector.
pub(crate) fn join(parts: &Vec<&[u8]>) -> (res: Vec<u8>)
    ensures
        res@ == joined(parts@),
{
    let mut res: Vec<u8> = Vec::new();
    let mut i: usize = 0;
    while i < parts.len()
        invariant
            i <= parts.len(),
            res@ == joined(parts@.take(i as int)),
        decreases parts.len() - i,
    {
        let part: &[u8] = parts[i];
        let ghost head = res@;
        let mut j: usize = 0;
        while j < part.len()
            invariant
                j <= part.len(),
                res@ == head + part@.take(j as int),
            decreases part.len() - j,
        {
            res.push(part[j]);
            j += 1;
            assert(res@ =~= head + part@.take(j as int));
        }
        i += 1;
        proof {
            assert(part@.take(part.len() as int) =~= part@);
            assert(parts@.take(i as int).drop_last() =~= parts@.take(i - 1));
        }
    }
    assert(parts@.take(parts.len() as int) =~= parts@);
    res
}

/// The bytes of `a` followed by those of `b`.
pub(crate) fn concat(a: &[u8], b: &[u8]) -> (res: Vec<u8>)
    ensures
        res@ == a@ + b@,
{
    let mut res = slice_to_vec(a);
    let mut i: usize = 0;
    while i < b.len()
        invariant
            i <= b.len(),
            res@ == a@ + b@.take(i as int),
        decreases b.len() - i,
    {
        res.push(b[i]);
        i += 1;
        assert(res@ =~= a@ + b@.take(i as int));
    }
    assert(b@.take(b.len() as int) =~= b@);
    res
}

/// The longest common prefix has the full length of `a` exactly when `a` is
/// a prefix of `b`, and the full length of both exactly when they are equal.
pub(crate) proof fn lemma_common_prefix_len(a: Seq<u8>, b: Seq<u8>, p: int)
    requires
        is_common_prefix_len(a, b, p),
    ensures
        p == a.len() <==> a.is_prefix_of(b),
        p == b.len() <==> b.is_prefix_of(a),
        (p == a.len() && p == b.len()) <==> a == b,
        a.take(p) == b.take(p),
{
    assert(a.take(p) =~= b.take(p));
    if p == a.len() {
        assert(a =~= b.subrange(0, a.len() as int));
    }
    if p == b.len() {
        assert(b =~= a.subrange(0, b.len() as int));
    }
    if a.is_prefix_of(b) && p < a.len() {
        assert(a[p] == b.subrange(0, a.len() as int)[p]);
    }
    if b.is_prefix_of(a) && p < b.len() {
        assert(b[p] == a.subrange(0, b.len() as int)[p]);
    }
    if p == a.len() && p == b.len() {
        assert(a =~= b);
    }
}

} // verus!
