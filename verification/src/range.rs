//! The entries of a search tree between two bounds, and how to walk them
//! in ascending order from one key to the next.

use crate::balance::lemma_contains;
use crate::order::{lt, total_order};
use crate::tree::Tree;
use crate::walks::{
    ascending, lemma_entry_in_map, lemma_in_order_ascending, lemma_in_order_holds_all,
    lemma_walks_within,
};
use std::collections::Bound;
use vstd::prelude::*;

verus! {

/// Makes `std::collections::Bound`, the standard library's range endpoint,
/// known to the verifier as the enum that it is: `Included` with a key,
/// `Excluded` with a key, or `Unbounded`. Nothing is claimed of it beyond
/// these three variants.
#[verifier::external_type_specification]
#[verifier::reject_recursive_types(T)]
pub struct ExBound<T>(Bound<T>);

/// `key` is not below the range that starts at `lower`.
pub open spec fn above_lower<K: PartialOrd>(lower: Bound<K>, key: K) -> bool {
    match lower {
        Bound::Included(bound) => !lt(key, bound),
        Bound::Excluded(bound) => lt(bound, key),
        Bound::Unbounded => true,
    }
}

/// `key` is not above the range that ends at `upper`.
pub open spec fn below_upper<K: PartialOrd>(upper: Bound<K>, key: K) -> bool {
    match upper {
        Bound::Included(bound) => !lt(bound, key),
        Bound::Excluded(bound) => lt(key, bound),
        Bound::Unbounded => true,
    }
}

/// The test whether an entry's key lies between the two bounds.
pub open spec fn between<K: PartialOrd, V>(lower: Bound<K>, upper: Bound<K>) -> spec_fn(
    (K, V),
) -> bool {
    |entry: (K, V)| above_lower(lower, entry.0) && below_upper(upper, entry.0)
}

impl<K: PartialOrd, V> Tree<K, V> {
    /// The entries in in-order whose keys lie between the two bounds.
    pub open spec fn entries_between(self, lower: Bound<K>, upper: Bound<K>) -> Seq<(K, V)> {
        self.in_order().filter(between(lower, upper))
    }
}

/// What passes a filter of entries whose keys ascend are entries of the
/// sequence, and their keys ascend.
pub proof fn lemma_filter_ascending<K: PartialOrd, V>(
    s: Seq<(K, V)>,
    pred: spec_fn((K, V)) -> bool,
)
    requires
        ascending(s),
    ensures
        ascending(s.filter(pred)),
        forall|i: int| 0 <= i < s.filter(pred).len() ==> s.contains(#[trigger] s.filter(pred)[i]),
    decreases s.len(),
{
    reveal(Seq::filter);
    if s.len() > 0 {
        let init = s.drop_last();
        assert(ascending(init)) by {
            assert forall|i: int, j: int| 0 <= i < j < init.len() implies lt(
                (#[trigger] init[i]).0,
                (#[trigger] init[j]).0,
            ) by {
                assert(init[i] == s[i] && init[j] == s[j]);
            }
        }
        lemma_filter_ascending(init, pred);
        let f0 = init.filter(pred);
        let f = s.filter(pred);
        assert forall|i: int| 0 <= i < f.len() implies s.contains(#[trigger] f[i]) by {
            if i < f0.len() {
                assert(f[i] == f0[i]);
                assert(init.contains(f0[i]));
                let j = choose|j: int| 0 <= j < init.len() && init[j] == f0[i];
                assert(s[j] == f[i]);
            } else {
                assert(s[s.len() - 1] == f[i]);
            }
        }
        assert forall|i: int, j: int| 0 <= i < j < f.len() implies lt(
            (#[trigger] f[i]).0,
            (#[trigger] f[j]).0,
        ) by {
            if j < f0.len() {
                assert(f[i] == f0[i] && f[j] == f0[j]);
            } else {
                assert(f[i] == f0[i]);
                assert(init.contains(f0[i]));
                let k = choose|k: int| 0 <= k < init.len() && init[k] == f0[i];
                assert(s[k] == f[i]);
                assert(s[s.len() - 1] == f[j]);
            }
        }
    }
}

/// The entries of a search tree between two bounds come by strictly
/// ascending key.
pub proof fn lemma_between_ascending<K: PartialOrd, V>(
    t: Tree<K, V>,
    lower: Bound<K>,
    upper: Bound<K>,
)
    requires
        total_order::<K>(),
        t.ordered(),
    ensures
        ascending(t.entries_between(lower, upper)),
{
    lemma_in_order_ascending(t);
    lemma_filter_ascending(t.in_order(), between::<K, V>(lower, upper));
}

/// The entries of a search tree between two bounds are the entries of its
/// map whose keys lie between the bounds.
pub proof fn lemma_between_holds<K: PartialOrd, V>(t: Tree<K, V>, lower: Bound<K>, upper: Bound<K>)
    requires
        total_order::<K>(),
        t.ordered(),
    ensures
        forall|k: K, v: V|
            t.entries_between(lower, upper).contains((k, v)) <==> {
                &&& t.contains(k)
                &&& t.as_map()[k] == v
                &&& above_lower(lower, k)
                &&& below_upper(upper, k)
            },
{
    let pred = between::<K, V>(lower, upper);
    let s = t.in_order();
    let f = t.entries_between(lower, upper);
    lemma_in_order_ascending(t);
    lemma_filter_ascending(s, pred);
    lemma_walks_within(t);
    assert forall|k: K, v: V| f.contains((k, v)) implies {
        &&& t.contains(k)
        &&& t.as_map()[k] == v
        &&& above_lower(lower, k)
        &&& below_upper(upper, k)
    } by {
        let i = choose|i: int| 0 <= i < f.len() && f[i] == (k, v);
        s.lemma_filter_pred(pred, i);
        assert(s.contains(f[i]));
        let j = choose|j: int| 0 <= j < s.len() && s[j] == (k, v);
        assert(t.has_entry(s[j]));
        lemma_entry_in_map(t, (k, v));
    }
    assert forall|k: K, v: V|
        t.contains(k) && t.as_map()[k] == v && above_lower(lower, k) && below_upper(
            upper,
            k,
        ) implies f.contains((k, v)) by {
        lemma_in_order_holds_all(t, k);
        let j = choose|j: int| 0 <= j < s.len() && s[j] == (k, v);
        s.lemma_filter_contains(pred, j);
    }
}

/// A filter that every element passes keeps the sequence as it is.
pub proof fn lemma_filter_keeps_all<A>(s: Seq<A>, pred: spec_fn(A) -> bool)
    requires
        forall|i: int| 0 <= i < s.len() ==> pred(#[trigger] s[i]),
    ensures
        s.filter(pred) == s,
    decreases s.len(),
{
    reveal(Seq::filter);
    if s.len() > 0 {
        lemma_filter_keeps_all(s.drop_last(), pred);
        assert(s.drop_last().push(s.last()) =~= s);
    }
}

/// The entries of a fork between two bounds are those of its left subtree,
/// then its own entry where its key lies between the bounds, then those of
/// its right subtree. The empty tree has none.
pub proof fn lemma_between_fork<K: PartialOrd, V>(t: Tree<K, V>, lower: Bound<K>, upper: Bound<K>)
    ensures
        t.entries_between(lower, upper) == match t {
            Tree::Empty => Seq::empty(),
            Tree::Fork { left, key, value, right } => {
                let own = if above_lower(lower, key) && below_upper(upper, key) {
                    seq![(key, value)]
                } else {
                    Seq::empty()
                };
                left.entries_between(lower, upper) + own + right.entries_between(lower, upper)
            },
        },
{
    let pred = between::<K, V>(lower, upper);
    reveal_with_fuel(Seq::filter, 2);
    match t {
        Tree::Empty => {},
        Tree::Fork { left, key, value, right } => {
            let own = seq![(key, value)];
            assert(t.in_order() =~= left.in_order() + own + right.in_order());
            Seq::filter_distributes_over_add(left.in_order() + own, right.in_order(), pred);
            Seq::filter_distributes_over_add(left.in_order(), own, pred);
            assert(own.drop_last() =~= Seq::empty());
            assert(own.filter(pred) =~= if pred((key, value)) {
                own
            } else {
                Seq::empty()
            });
        },
    }
}

/// A tree none of whose keys lies between the bounds has no entries
/// between them.
pub proof fn lemma_none_between<K: PartialOrd, V>(t: Tree<K, V>, lower: Bound<K>, upper: Bound<K>)
    requires
        forall|j: K| t.contains(j) ==> !(above_lower(lower, j) && below_upper(upper, j)),
    ensures
        t.entries_between(lower, upper) == Seq::<(K, V)>::empty(),
    decreases t,
{
    lemma_between_fork(t, lower, upper);
    if let Tree::Fork { left, key, value, right } = t {
        lemma_contains(t);
        lemma_none_between(*left, lower, upper);
        lemma_none_between(*right, lower, upper);
        assert(t.entries_between(lower, upper) =~= Seq::<(K, V)>::empty());
    }
}

/// Two lower bounds that the same keys of a tree are above give the same
/// entries.
pub proof fn lemma_same_between<K: PartialOrd, V>(
    t: Tree<K, V>,
    lower: Bound<K>,
    other: Bound<K>,
    upper: Bound<K>,
)
    requires
        forall|j: K| t.contains(j) ==> (above_lower(lower, j) <==> above_lower(other, j)),
    ensures
        t.entries_between(lower, upper) == t.entries_between(other, upper),
    decreases t,
{
    lemma_between_fork(t, lower, upper);
    lemma_between_fork(t, other, upper);
    if let Tree::Fork { left, key, value, right } = t {
        lemma_contains(t);
        lemma_same_between(*left, lower, other, upper);
        lemma_same_between(*right, lower, other, upper);
    }
}

/// The walk from one key to the next. Let `first` be the least key of a
/// search tree that is above the lower bound. Where `first` is above the
/// upper bound, no entry lies between the bounds. Otherwise the entries
/// between the bounds are the entry of `first`, followed by the entries
/// between `first`, excluded, and the upper bound.
pub proof fn lemma_first_between<K: PartialOrd, V>(
    t: Tree<K, V>,
    lower: Bound<K>,
    upper: Bound<K>,
    first: K,
)
    requires
        total_order::<K>(),
        t.ordered(),
        t.contains(first),
        above_lower(lower, first),
        forall|j: K| t.contains(j) && above_lower(lower, j) ==> !lt(j, first),
    ensures
        t.entries_between(lower, upper) == if below_upper(upper, first) {
            seq![(first, t.as_map()[first])] + t.entries_between(Bound::Excluded(first), upper)
        } else {
            Seq::empty()
        },
    decreases t,
{
    lemma_between_fork(t, lower, upper);
    lemma_between_fork(t, Bound::Excluded(first), upper);
    if let Tree::Fork { left, key, value, right } = t {
        lemma_contains(t);
        let next = Bound::Excluded(first);
        if first == key {
            lemma_none_between(*left, lower, upper);
            lemma_none_between(*left, next, upper);
            if below_upper(upper, first) {
                lemma_same_between(*right, lower, next, upper);
                assert(t.entries_between(lower, upper) =~= seq![(first, t.as_map()[first])]
                    + t.entries_between(next, upper));
            } else {
                lemma_none_between(*right, lower, upper);
                assert(t.entries_between(lower, upper) =~= Seq::<(K, V)>::empty());
            }
        } else if lt(first, key) {
            lemma_first_between(*left, lower, upper, first);
            if below_upper(upper, first) {
                lemma_same_between(*right, lower, next, upper);
                assert(t.entries_between(lower, upper) =~= seq![(first, t.as_map()[first])]
                    + t.entries_between(next, upper));
            } else {
                lemma_none_between(*right, lower, upper);
                assert(t.entries_between(lower, upper) =~= Seq::<(K, V)>::empty());
            }
        } else {
            lemma_none_between(*left, lower, upper);
            lemma_none_between(*left, next, upper);
            lemma_first_between(*right, lower, upper, first);
            if below_upper(upper, first) {
                assert(t.entries_between(lower, upper) =~= seq![(first, t.as_map()[first])]
                    + t.entries_between(next, upper));
            } else {
                assert(t.entries_between(lower, upper) =~= Seq::<(K, V)>::empty());
            }
        }
    }
}

} // verus!
