//! What holds of the tree whatever is inserted and deleted, and of the
//! walks over it.

use crate::balance::lemma_avl_passes_probe;
use crate::levels::{lemma_above_depth_of_one, lemma_levels_by_depth};
use crate::order::total_order;
use crate::range::{
    above_lower, below_upper, between, lemma_between_ascending, lemma_between_holds,
    lemma_filter_keeps_all,
};
use crate::tree::Tree;
use crate::update::{lemma_delete, lemma_insert, lemma_same_shape};
use crate::walks::{ascending, lemma_in_order_ascending};
use std::collections::Bound;
use vstd::prelude::*;

verus! {

/// One change to a tree.
pub enum Update<K, V> {
    Insert(K, V),
    Delete(K),
}

impl<K: PartialOrd, V> Tree<K, V> {
    /// The tree after one change.
    pub open spec fn apply(self, update: Update<K, V>) -> Self {
        match update {
            Update::Insert(key, value) => self.insert(key, value),
            Update::Delete(key) => self.delete(key),
        }
    }

    /// The tree after a sequence of changes, made in their order.
    pub open spec fn apply_all(self, updates: Seq<Update<K, V>>) -> Self
        decreases updates.len(),
    {
        if updates.len() == 0 {
            self
        } else {
            self.apply_all(updates.drop_last()).apply(updates.last())
        }
    }
}

/// Balance: whatever is inserted into and deleted from the empty tree, in
/// whatever order, the tree is a height-balanced search tree and passes
/// the probe at every fork.
pub proof fn law_balance<K: PartialOrd, V>(updates: Seq<Update<K, V>>)
    requires
        total_order::<K>(),
    ensures
        Tree::<K, V>::Empty.apply_all(updates).is_avl(),
        Tree::<K, V>::Empty.apply_all(updates).passes_probe(),
    decreases updates.len(),
{
    let empty = Tree::<K, V>::Empty;
    if updates.len() > 0 {
        law_balance(updates.drop_last());
        let before = empty.apply_all(updates.drop_last());
        match updates.last() {
            Update::Insert(key, value) => lemma_insert(before, key, value),
            Update::Delete(key) => lemma_delete(before, key),
        }
    }
    lemma_avl_passes_probe(empty.apply_all(updates));
}

/// Order: whatever is inserted into and deleted from the empty tree, in
/// whatever order, the in-order walk yields the entries by strictly
/// ascending key.
pub proof fn law_order<K: PartialOrd, V>(updates: Seq<Update<K, V>>)
    requires
        total_order::<K>(),
    ensures
        ascending(Tree::<K, V>::Empty.apply_all(updates).in_order()),
{
    law_balance(updates);
    lemma_in_order_ascending(Tree::<K, V>::Empty.apply_all(updates));
}

/// Round trip: a key that has just been inserted is in the tree with the
/// value it was inserted with, and a key that has just been deleted is
/// not in the tree.
pub proof fn law_round_trip<K: PartialOrd, V>(t: Tree<K, V>, key: K, value: V)
    requires
        total_order::<K>(),
        t.is_avl(),
    ensures
        t.insert(key, value).contains(key),
        t.insert(key, value).as_map()[key] == value,
        !t.delete(key).contains(key),
{
    lemma_insert(t, key, value);
    lemma_delete(t, key);
}

/// Deleting a key that is not in the tree changes nothing: the tree, and
/// so its in-order walk, stay as they are.
pub proof fn law_delete_absent<K: PartialOrd, V>(t: Tree<K, V>, key: K)
    requires
        total_order::<K>(),
        t.is_avl(),
        !t.contains(key),
    ensures
        t.delete(key) == t,
        t.delete(key).in_order() == t.in_order(),
{
    lemma_delete(t, key);
}

/// Overwriting: inserting a key that is in the tree gives the key the new
/// value and keeps the shape of the tree, and so its height.
pub proof fn law_overwrite<K: PartialOrd, V>(t: Tree<K, V>, key: K, value: V)
    requires
        total_order::<K>(),
        t.is_avl(),
        t.contains(key),
    ensures
        t.insert(key, value).as_map()[key] == value,
        t.insert(key, value).same_shape(t),
        t.insert(key, value).height() == t.height(),
        t.insert(key, value).as_map().dom() == t.as_map().dom(),
{
    lemma_insert(t, key, value);
    lemma_same_shape(t.insert(key, value), t);
}

/// A range without bounds is the whole in-order walk.
pub proof fn law_unbounded_range<K: PartialOrd, V>(t: Tree<K, V>)
    ensures
        t.entries_between(Bound::Unbounded, Bound::Unbounded) == t.in_order(),
{
    lemma_filter_keeps_all(t.in_order(), between::<K, V>(Bound::Unbounded, Bound::Unbounded));
}

/// The entries of a range are the entries of the tree whose keys lie
/// between the bounds, by strictly ascending key.
pub proof fn law_range<K: PartialOrd, V>(t: Tree<K, V>, lower: Bound<K>, upper: Bound<K>)
    requires
        total_order::<K>(),
        t.is_avl(),
    ensures
        ascending(t.entries_between(lower, upper)),
        forall|k: K, v: V|
            t.entries_between(lower, upper).contains((k, v)) <==> {
                &&& t.contains(k)
                &&& t.as_map()[k] == v
                &&& above_lower(lower, k)
                &&& below_upper(upper, k)
            },
{
    lemma_between_ascending(t, lower, upper);
    lemma_between_holds(t, lower, upper);
}

/// Level order is order by depth: the walk in level order yields the
/// entries by ascending depth below the root, and those of one depth from
/// left to right.
pub proof fn law_level_order_by_depth<K, V>(t: Tree<K, V>)
    ensures
        t.level_order() == t.above_depth(t.height()),
{
    lemma_levels_by_depth(seq![t], t.height());
    lemma_above_depth_of_one(t, t.height());
}

} // verus!
