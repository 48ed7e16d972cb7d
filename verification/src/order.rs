//! The order on keys.
//!
//! The tree compares keys with `<` and `>` and treats two keys that are
//! neither below nor above each other as the same key. The contracts
//! therefore speak of a key type whose comparison is a strict total order
//! in which only equal keys compare as equal.

use std::cmp::Ordering;
use vstd::prelude::*;
use vstd::std_specs::cmp::PartialOrdSpec;

verus! {

/// `a` is strictly below `b`.
pub open spec fn lt<K: PartialOrd>(a: K, b: K) -> bool {
    a.partial_cmp_spec(&b) == Some(Ordering::Less)
}

/// The comparison operators of `K` compute a strict total order:
/// any two keys are comparable, exactly the equal keys compare as equal,
/// "above" is the converse of "below", and "below" is transitive.
///
/// The machine integers are ordered so; of them the verifier sees it
/// without help.
pub open spec fn total_order<K: PartialOrd>() -> bool {
    &&& K::obeys_partial_cmp_spec()
    &&& forall|a: K, b: K| #![trigger a.partial_cmp_spec(&b)] lt(a, b) || a == b || lt(b, a)
    &&& forall|a: K, b: K| (#[trigger] a.partial_cmp_spec(&b) == Some(Ordering::Equal)) <==> a == b
    &&& forall|a: K, b: K|
        (#[trigger] a.partial_cmp_spec(&b) == Some(Ordering::Greater)) <==> lt(b, a)
    &&& forall|a: K, b: K, c: K| #[trigger] lt(a, b) && #[trigger] lt(b, c) ==> lt(a, c)
}

/// Cloning a key yields an equal key, as it does for the machine integers.
pub open spec fn faithful_clone<K: Clone>() -> bool {
    forall|a: K, b: K| #[trigger] cloned(a, b) ==> a == b
}

/// `dst` holds, position by position, a clone of what `src` holds.
pub open spec fn clones_of<K: Clone>(src: Seq<K>, dst: Seq<K>) -> bool {
    &&& src.len() == dst.len()
    &&& forall|i: int| 0 <= i < src.len() ==> cloned(src[i], #[trigger] dst[i])
}

/// `after` is `before` followed by a clone of each key of `keys`, in their
/// order.
pub open spec fn extended_by_clones<K: Clone>(before: Seq<K>, after: Seq<K>, keys: Seq<K>) -> bool {
    &&& after.len() == before.len() + keys.len()
    &&& after.take(before.len() as int) == before
    &&& clones_of(keys, after.skip(before.len() as int))
}

/// `k` is the least key of `m`.
pub open spec fn is_least<K: PartialOrd, V>(m: Map<K, V>, k: K) -> bool {
    &&& m.contains_key(k)
    &&& forall|j: K| #[trigger] m.contains_key(j) ==> !lt(j, k)
}

/// `k` is the greatest key of `m`.
pub open spec fn is_greatest<K: PartialOrd, V>(m: Map<K, V>, k: K) -> bool {
    &&& m.contains_key(k)
    &&& forall|j: K| #[trigger] m.contains_key(j) ==> !lt(k, j)
}

/// `k` is the least key of `m` strictly above `bound`.
pub open spec fn is_successor<K: PartialOrd, V>(m: Map<K, V>, bound: K, k: K) -> bool {
    &&& m.contains_key(k)
    &&& lt(bound, k)
    &&& forall|j: K| #[trigger] m.contains_key(j) && lt(bound, j) ==> !lt(j, k)
}

/// `k` is the greatest key of `m` strictly below `bound`.
pub open spec fn is_predecessor<K: PartialOrd, V>(m: Map<K, V>, bound: K, k: K) -> bool {
    &&& m.contains_key(k)
    &&& lt(k, bound)
    &&& forall|j: K| #[trigger] m.contains_key(j) && lt(j, bound) ==> !lt(k, j)
}

/// Nothing extends a sequence to itself.
pub proof fn lemma_extended_by_none<K: Clone>(before: Seq<K>)
    ensures
        extended_by_clones(before, before, Seq::empty()),
{
    assert(before.take(before.len() as int) =~= before);
}

/// Pushing a clone of a key extends a sequence by that key.
pub proof fn lemma_extended_by_push<K: Clone>(before: Seq<K>, key: K, clone: K)
    requires
        cloned(key, clone),
    ensures
        extended_by_clones(before, before.push(clone), seq![key]),
{
    assert(before.push(clone).take(before.len() as int) =~= before);
}

/// Extending twice is extending by the two sequences of keys in a row.
pub proof fn lemma_extended_twice<K: Clone>(
    a: Seq<K>,
    b: Seq<K>,
    c: Seq<K>,
    first: Seq<K>,
    second: Seq<K>,
)
    requires
        extended_by_clones(a, b, first),
        extended_by_clones(b, c, second),
    ensures
        extended_by_clones(a, c, first + second),
{
    let n = a.len() as int;
    let m = b.len() as int;
    assert(c.take(n) =~= b.take(n)) by {
        assert(c.take(m) == b);
        assert forall|i: int| 0 <= i < n implies c.take(n)[i] == b.take(n)[i] by {
            assert(c.take(m)[i] == b[i]);
        }
    }
    let tail = c.skip(n);
    assert forall|i: int| 0 <= i < (first + second).len() implies cloned(
        (first + second)[i],
        #[trigger] tail[i],
    ) by {
        if i < first.len() {
            assert(c.take(m)[n + i] == b[n + i]);
            assert(b.skip(n)[i] == b[n + i]);
        } else {
            assert(c.skip(m)[i - first.len()] == c[n + i]);
        }
    }
}

/// Where cloning is faithful, a sequence of clones is the sequence itself.
pub proof fn lemma_faithful_clones<K: Clone>(src: Seq<K>, dst: Seq<K>)
    requires
        faithful_clone::<K>(),
        clones_of(src, dst),
    ensures
        src == dst,
{
    assert(src =~= dst);
}

} // verus!
