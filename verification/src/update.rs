//! Inserting and deleting keep a height-balanced search tree
//! height-balanced and change what it holds by exactly one key.

use crate::balance::{lemma_contains, lemma_rebalance_keeps, lemma_rebalance_restores};
use crate::order::{is_least, lt, total_order};
use crate::tree::Tree;
use vstd::prelude::*;

verus! {

/// Every tree has the shape of itself.
pub proof fn lemma_same_shape_reflexive<K, V>(t: Tree<K, V>)
    ensures
        t.same_shape(t),
    decreases t,
{
    if let Tree::Fork { left, right, .. } = t {
        lemma_same_shape_reflexive(*left);
        lemma_same_shape_reflexive(*right);
    }
}

/// Trees of the same shape have the same height, the same number of
/// entries and the same keys, and are balanced and ordered alike.
pub proof fn lemma_same_shape<K: PartialOrd, V>(s: Tree<K, V>, t: Tree<K, V>)
    requires
        s.same_shape(t),
    ensures
        s.height() == t.height(),
        s.size() == t.size(),
        s.as_map().dom() == t.as_map().dom(),
        s.balanced() == t.balanced(),
        s.ordered() == t.ordered(),
    decreases s,
{
    if let Tree::Fork { left: l1, right: r1, .. } = s {
        if let Tree::Fork { left: l2, right: r2, .. } = t {
            lemma_same_shape(*l1, *l2);
            lemma_same_shape(*r1, *r2);
            assert(s.as_map().dom() =~= t.as_map().dom());
        }
    } else {
        assert(s.as_map().dom() =~= t.as_map().dom());
    }
}

/// Inserting into a height-balanced search tree yields a height-balanced
/// search tree that holds the new entry and otherwise what the tree held.
/// The height grows by at most one; a key that was present keeps the
/// shape of the tree as it was.
pub proof fn lemma_insert<K: PartialOrd, V>(t: Tree<K, V>, key: K, value: V)
    requires
        total_order::<K>(),
        t.is_avl(),
    ensures
        t.insert(key, value).is_avl(),
        t.insert(key, value) is Fork,
        t.insert(key, value).as_map() == t.as_map().insert(key, value),
        t.insert(key, value).height() == t.height() || t.insert(key, value).height()
            == t.height() + 1,
        t.insert(key, value).size() == t.size() + (if t.contains(key) { 0nat } else { 1nat }),
        t.contains(key) ==> t.insert(key, value).same_shape(t),
    decreases t,
{
    let r = t.insert(key, value);
    match t {
        Tree::Empty => {
            assert(r.as_map() =~= t.as_map().insert(key, value));
        },
        Tree::Fork { left, key: k, value: v, right } => {
            lemma_contains(t);
            if lt(key, k) {
                let l2 = left.insert(key, value);
                lemma_insert(*left, key, value);
                let mid = Tree::fork(l2, k, v, *right);
                lemma_contains(mid);
                assert(mid.ordered());
                assert(mid.as_map() =~= t.as_map().insert(key, value));
                lemma_rebalance_keeps(mid);
                lemma_rebalance_restores(mid);
                if t.contains(key) {
                    lemma_same_shape(l2, *left);
                    lemma_same_shape_reflexive(*right);
                }
            } else if lt(k, key) {
                let r2 = right.insert(key, value);
                lemma_insert(*right, key, value);
                let mid = Tree::fork(*left, k, v, r2);
                lemma_contains(mid);
                assert(mid.ordered());
                assert(mid.as_map() =~= t.as_map().insert(key, value));
                lemma_rebalance_keeps(mid);
                lemma_rebalance_restores(mid);
                if t.contains(key) {
                    lemma_same_shape(r2, *right);
                    lemma_same_shape_reflexive(*left);
                }
            } else {
                assert(key == k);
                lemma_contains(r);
                assert(r.as_map() =~= t.as_map().insert(key, value));
                lemma_same_shape_reflexive(*left);
                lemma_same_shape_reflexive(*right);
            }
        },
    }
}

/// The leftmost entry of a non-empty search tree has the least key, and
/// taking it out of a height-balanced search tree leaves a height-balanced
/// search tree with the other entries, of the same height or one lower.
pub proof fn lemma_without_first<K: PartialOrd, V>(t: Tree<K, V>)
    requires
        total_order::<K>(),
        t.is_avl(),
        t is Fork,
    ensures
        t.first() is Some,
        is_least(t.as_map(), t.first().unwrap().0),
        t.as_map()[t.first().unwrap().0] == t.first().unwrap().1,
        t.without_first().is_avl(),
        t.without_first().as_map() == t.as_map().remove(t.first().unwrap().0),
        t.without_first().height() == t.height() || t.without_first().height() + 1
            == t.height(),
        t.without_first().size() + 1 == t.size(),
    decreases t,
{
    if let Tree::Fork { left, key, value, right } = t {
        lemma_contains(t);
        if *left is Empty {
            lemma_contains(*left);
            assert(right.as_map() =~= t.as_map().remove(key));
        } else {
            lemma_without_first(*left);
            let m = left.first().unwrap().0;
            let mid = Tree::fork(left.without_first(), key, value, *right);
            lemma_contains(mid);
            assert(mid.ordered());
            assert(mid.as_map() =~= t.as_map().remove(m));
            lemma_rebalance_keeps(mid);
            lemma_rebalance_restores(mid);
        }
    }
}

/// Taking the root entry out of a height-balanced search tree leaves a
/// height-balanced search tree with the other entries, of the same height
/// or one lower.
pub proof fn lemma_without_root<K: PartialOrd, V>(t: Tree<K, V>)
    requires
        total_order::<K>(),
        t.is_avl(),
    ensures
        t.without_root().is_avl(),
        t matches Tree::Fork { key, .. } ==> t.without_root().as_map() == t.as_map().remove(key),
        t.without_root().height() == t.height() || t.without_root().height() + 1 == t.height(),
        t is Fork ==> t.without_root().size() + 1 == t.size(),
{
    if let Tree::Fork { left, key, value, right } = t {
        lemma_contains(t);
        lemma_contains(*left);
        lemma_contains(*right);
        if *left is Empty {
            assert(right.as_map() =~= t.as_map().remove(key));
            assert(left.size() == 0);
        } else if *right is Empty {
            assert(left.as_map() =~= t.as_map().remove(key));
            assert(right.size() == 0);
        } else {
            lemma_without_first(*right);
            let (k, v) = right.first().unwrap();
            let mid = Tree::fork(*left, k, v, right.without_first());
            lemma_contains(mid);
            assert(mid.ordered());
            assert(mid.as_map() =~= t.as_map().remove(key));
            lemma_rebalance_keeps(mid);
            lemma_rebalance_restores(mid);
        }
    }
}

/// Deleting from a height-balanced search tree yields a height-balanced
/// search tree that holds what the tree held but for the key. The height
/// shrinks by at most one; a tree that does not hold the key is left as
/// it is.
pub proof fn lemma_delete<K: PartialOrd, V>(t: Tree<K, V>, key: K)
    requires
        total_order::<K>(),
        t.is_avl(),
    ensures
        t.delete(key).is_avl(),
        t.delete(key).as_map() == t.as_map().remove(key),
        t.delete(key).height() == t.height() || t.delete(key).height() + 1 == t.height(),
        t.delete(key).size() + (if t.contains(key) { 1nat } else { 0nat }) == t.size(),
        !t.contains(key) ==> t.delete(key) == t,
    decreases t,
{
    match t {
        Tree::Empty => {
            assert(t.delete(key).as_map() =~= t.as_map().remove(key));
        },
        Tree::Fork { left, key: k, value: v, right } => {
            lemma_contains(t);
            if lt(k, key) {
                lemma_delete(*right, key);
                let mid = Tree::fork(*left, k, v, right.delete(key));
                lemma_contains(mid);
                assert(mid.ordered());
                assert(mid.as_map() =~= t.as_map().remove(key));
                lemma_rebalance_keeps(mid);
                lemma_rebalance_restores(mid);
            } else if lt(key, k) {
                lemma_delete(*left, key);
                let mid = Tree::fork(left.delete(key), k, v, *right);
                lemma_contains(mid);
                assert(mid.ordered());
                assert(mid.as_map() =~= t.as_map().remove(key));
                lemma_rebalance_keeps(mid);
                lemma_rebalance_restores(mid);
            } else {
                assert(key == k);
                lemma_without_root(t);
            }
        },
    }
}

} // verus!
