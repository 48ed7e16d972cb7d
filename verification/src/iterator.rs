//! Iterators over the entries of a tree: one that walks a range of keys
//! from one key to the next, and one that hands out the entries of a walk
//! made beforehand.

use crate::avltree::AVLTree;
use crate::order::{lt, total_order};
use crate::range::{above_lower, below_upper, lemma_first_between, lemma_none_between};
use std::collections::{Bound, VecDeque};
use vstd::prelude::*;

verus! {

/// The entries that a sequence of borrowed pairs refers to.
pub open spec fn entries_of<K, V>(pairs: Seq<(&K, &V)>) -> Seq<(K, V)> {
    pairs.map_values(|pair: (&K, &V)| (*pair.0, *pair.1))
}

/// An iterator over the entries of a tree whose keys lie in a range, by
/// ascending key. It looks up each entry when it is asked for it.
#[verifier::reject_recursive_types(K)]
pub struct RangePairIter<'a, K: PartialOrd + Clone, V> {
    tree: &'a AVLTree<K, V>,
    from: Bound<K>,
    to: Bound<K>,
    prev: Option<&'a K>,
}

impl<'a, K: PartialOrd + Clone, V> View for RangePairIter<'a, K, V> {
    type V = Seq<(K, V)>;

    /// The entries still to come.
    closed spec fn view(&self) -> Seq<(K, V)> {
        self.tree@.entries_between(self.cursor(), self.to)
    }
}

impl<'a, K: PartialOrd + Clone, V> RangePairIter<'a, K, V> {
    /// The lower bound of what is still to come: the lower bound of the
    /// range before the first entry, the key of the last entry after it.
    pub closed spec fn cursor(&self) -> Bound<K> {
        match self.prev {
            None => self.from,
            Some(key) => Bound::Excluded(*key),
        }
    }

    /// The tree that the iterator walks is well-formed.
    pub closed spec fn well_formed(&self) -> bool {
        self.tree.well_formed()
    }

    /// An iterator over the entries of `tree` between `lower` and `upper`.
    pub fn new(tree: &'a AVLTree<K, V>, lower: Bound<K>, upper: Bound<K>) -> (iter: Self)
        requires
            tree.well_formed(),
        ensures
            iter.well_formed(),
            iter@ == tree@.entries_between(lower, upper),
    {
        Self { tree, from: lower, to: upper, prev: None }
    }

    /// The next entry that is not above the upper bound. Its key is kept as
    /// the point from which the walk goes on; where there is no such entry,
    /// nothing is kept and the iterator stays as it is.
    fn get_next_key_under(&mut self) -> (next: Option<(&'a K, &'a V)>)
        requires
            total_order::<K>(),
            old(self).well_formed(),
        ensures
            final(self).well_formed(),
            match next {
                Some((k, v)) => {
                    &&& old(self)@.len() > 0
                    &&& old(self)@[0] == (*k, *v)
                    &&& final(self)@ == old(self)@.drop_first()
                },
                None => old(self)@.len() == 0 && *final(self) == *old(self),
            },
    {
        let ghost lower = self.cursor();
        let res = match self.get_next_pair() {
            None => {
                proof {
                    lemma_none_between(self.tree@, lower, self.to);
                }
                None
            },
            Some(cur) => {
                proof {
                    lemma_first_between(self.tree@, lower, self.to, *cur.0);
                }
                self.check_upper_bound(cur)
            },
        };
        if let Some((key, _)) = res {
            self.prev = Some(key);
            proof {
                assert(old(self)@.drop_first() =~= self@);
            }
        }
        res
    }

    /// The entry with the least key that is still to come, whether or not it
    /// is above the upper bound.
    fn get_next_pair(&mut self) -> (next: Option<(&'a K, &'a V)>)
        requires
            total_order::<K>(),
            old(self).well_formed(),
        ensures
            *final(self) == *old(self),
            match next {
                Some((k, v)) => {
                    &&& old(self).tree@.contains(*k)
                    &&& old(self).tree@.as_map()[*k] == *v
                    &&& above_lower(old(self).cursor(), *k)
                    &&& forall|j: K|
                        old(self).tree@.contains(j) && above_lower(old(self).cursor(), j)
                            ==> !lt(j, *k)
                },
                None => forall|j: K|
                    old(self).tree@.contains(j) ==> !above_lower(old(self).cursor(), j),
            },
    {
        match self.prev {
            None => self.get_lower_bound_pair(),
            Some(key) => self.tree.successor(key),
        }
    }

    /// The entry with the least key that is not below the lower bound of the
    /// range.
    fn get_lower_bound_pair(&self) -> (first: Option<(&'a K, &'a V)>)
        requires
            total_order::<K>(),
            self.well_formed(),
        ensures
            match first {
                Some((k, v)) => {
                    &&& self.tree@.contains(*k)
                    &&& self.tree@.as_map()[*k] == *v
                    &&& above_lower(self.from, *k)
                    &&& forall|j: K|
                        self.tree@.contains(j) && above_lower(self.from, j) ==> !lt(j, *k)
                },
                None => forall|j: K| self.tree@.contains(j) ==> !above_lower(self.from, j),
            },
    {
        match self.from {
            Bound::Included(ref key) => match self.tree.get_pair(key) {
                Some(pair) => Some(pair),
                None => self.tree.successor(key),
            },
            Bound::Excluded(ref key) => self.tree.successor(key),
            Bound::Unbounded => self.tree.min_pair(),
        }
    }

    /// `current`, where its key is not above the upper bound of the range.
    fn check_upper_bound(&self, current: (&'a K, &'a V)) -> (within: Option<(&'a K, &'a V)>)
        requires
            total_order::<K>(),
        ensures
            within == if below_upper(self.to, *current.0) {
                Some(current)
            } else {
                None
            },
    {
        let ok = match self.to {
            Bound::Included(ref key) => current.0 <= key,
            Bound::Excluded(ref key) => current.0 < key,
            Bound::Unbounded => true,
        };
        if ok {
            Some(current)
        } else {
            None
        }
    }

    /// The next entry of the range, or `None` once the range is exhausted.
    /// An exhausted iterator stays as it is.
    pub fn next(&mut self) -> (next: Option<(&'a K, &'a V)>)
        requires
            total_order::<K>(),
            old(self).well_formed(),
        ensures
            final(self).well_formed(),
            match next {
                Some((k, v)) => {
                    &&& old(self)@.len() > 0
                    &&& old(self)@[0] == (*k, *v)
                    &&& final(self)@ == old(self)@.drop_first()
                },
                None => old(self)@.len() == 0 && *final(self) == *old(self),
            },
    {
        self.get_next_key_under()
    }

    /// All entries still to come, in their order.
    pub fn collect(self) -> (pairs: Vec<(&'a K, &'a V)>)
        requires
            total_order::<K>(),
            self.well_formed(),
        ensures
            entries_of(pairs@) == self@,
    {
        let mut iter = self;
        let mut pairs: Vec<(&'a K, &'a V)> = Vec::new();
        loop
            invariant
                total_order::<K>(),
                iter.well_formed(),
                entries_of(pairs@) + iter@ == self@,
            decreases iter@.len(),
        {
            let ghost before = iter@;
            match iter.next() {
                Some(pair) => {
                    pairs.push(pair);
                    proof {
                        assert(entries_of(pairs@) + iter@ =~= self@);
                    }
                },
                None => {
                    proof {
                        assert(entries_of(pairs@) =~= self@);
                    }
                    return pairs;
                },
            }
        }
    }
}

/// An iterator over the entries of a walk that was made beforehand.
pub struct TraverseIter<'a, K, V> {
    data: VecDeque<(&'a K, &'a V)>,
}

impl<'a, K, V> View for TraverseIter<'a, K, V> {
    type V = Seq<(K, V)>;

    /// The entries still to come.
    closed spec fn view(&self) -> Seq<(K, V)> {
        entries_of(self.data@)
    }
}

impl<'a, K, V> TraverseIter<'a, K, V> {
    /// An iterator that hands out the pairs of `queue` from its front.
    pub fn new(queue: VecDeque<(&'a K, &'a V)>) -> (iter: Self)
        ensures
            iter@ == entries_of(queue@),
    {
        TraverseIter { data: queue }
    }
}

impl<'a, K: PartialOrd + Clone, V> TraverseIter<'a, K, V> {
    /// The next entry of the walk, or `None` once the walk is exhausted.
    pub fn next(&mut self) -> (next: Option<(&'a K, &'a V)>)
        ensures
            match next {
                Some((k, v)) => {
                    &&& old(self)@.len() > 0
                    &&& old(self)@[0] == (*k, *v)
                    &&& final(self)@ == old(self)@.drop_first()
                },
                None => old(self)@.len() == 0 && final(self)@ == old(self)@,
            },
    {
        let next = self.data.pop_front();
        proof {
            if next is Some {
                assert(self@ =~= old(self)@.drop_first());
            }
        }
        next
    }

    /// All entries still to come, in their order.
    pub fn collect(self) -> (pairs: Vec<(&'a K, &'a V)>)
        ensures
            entries_of(pairs@) == self@,
    {
        let mut iter = self;
        let mut pairs: Vec<(&'a K, &'a V)> = Vec::new();
        loop
            invariant
                entries_of(pairs@) + iter@ == self@,
            decreases iter@.len(),
        {
            match iter.next() {
                Some(pair) => {
                    pairs.push(pair);
                    proof {
                        assert(entries_of(pairs@) + iter@ =~= self@);
                    }
                },
                None => {
                    proof {
                        assert(entries_of(pairs@) =~= self@);
                    }
                    return pairs;
                },
            }
        }
    }
}

} // verus!
