//! Rotations and rebalancing keep what a search tree holds and restore
//! its balance.

use crate::order::{lt, total_order};
use crate::tree::Tree;
use vstd::prelude::*;

verus! {

/// A key occurs in a fork exactly if it is the fork's key or occurs in one
/// of the two subtrees; the fork's map holds the fork's value at its key
/// and elsewhere what the subtrees hold. Nothing occurs in the empty tree.
pub proof fn lemma_contains<K, V>(t: Tree<K, V>)
    ensures
        match t {
            Tree::Empty => forall|j: K| !(#[trigger] t.contains(j)),
            Tree::Fork { left, key, value, right } => {
                &&& t.contains(key)
                &&& t.as_map()[key] == value
                &&& forall|j: K|
                    #![trigger t.contains(j)]
                    #![trigger left.contains(j)]
                    #![trigger right.contains(j)]
                    t.contains(j) <==> (j == key || left.contains(j) || right.contains(j))
                &&& forall|j: K|
                    #![trigger t.as_map()[j]]
                    j != key && right.contains(j) ==> t.as_map()[j] == right.as_map()[j]
                &&& forall|j: K|
                    #![trigger t.as_map()[j]]
                    j != key && !right.contains(j) && left.contains(j) ==> t.as_map()[j]
                        == left.as_map()[j]
            },
        },
{
}

/// A rotation to the right keeps the order, the entries, their number and
/// their in-order sequence.
pub proof fn lemma_rotate_right<K: PartialOrd, V>(t: Tree<K, V>)
    requires
        total_order::<K>(),
        t.ordered(),
    ensures
        t.rotate_right().ordered(),
        t.rotate_right().as_map() == t.as_map(),
        t.rotate_right().size() == t.size(),
        t.rotate_right().in_order() == t.in_order(),
{
    reveal_with_fuel(Tree::ordered, 3);
    reveal_with_fuel(Tree::as_map, 3);
    reveal_with_fuel(Tree::size, 3);
    reveal_with_fuel(Tree::in_order, 3);
    if let Tree::Fork { left, key: k2, value: v2, right: c } = t {
        if let Tree::Fork { left: a, key: k1, value: v1, right: b } = *left {
            let inner = Tree::fork(*b, k2, v2, *c);
            let r = Tree::fork(*a, k1, v1, inner);
            assert(t.rotate_right() == r);
            lemma_contains(t);
            lemma_contains(*left);
            lemma_contains(inner);
            lemma_contains(r);
            assert(inner.ordered());
            assert forall|k: K| #[trigger] inner.contains(k) implies lt(k1, k) by {
                if c.contains(k) {
                    assert(lt(k2, k));
                }
            }
            assert(r.ordered());
            assert(r.as_map() =~= t.as_map());
            assert(r.in_order() =~= t.in_order());
        }
    }
}

/// A rotation to the left keeps the order, the entries, their number and
/// their in-order sequence.
pub proof fn lemma_rotate_left<K: PartialOrd, V>(t: Tree<K, V>)
    requires
        total_order::<K>(),
        t.ordered(),
    ensures
        t.rotate_left().ordered(),
        t.rotate_left().as_map() == t.as_map(),
        t.rotate_left().size() == t.size(),
        t.rotate_left().in_order() == t.in_order(),
{
    reveal_with_fuel(Tree::ordered, 3);
    reveal_with_fuel(Tree::as_map, 3);
    reveal_with_fuel(Tree::size, 3);
    reveal_with_fuel(Tree::in_order, 3);
    if let Tree::Fork { left: a, key: k1, value: v1, right } = t {
        if let Tree::Fork { left: b, key: k2, value: v2, right: c } = *right {
            let inner = Tree::fork(*a, k1, v1, *b);
            let r = Tree::fork(inner, k2, v2, *c);
            assert(t.rotate_left() == r);
            lemma_contains(t);
            lemma_contains(*right);
            lemma_contains(inner);
            lemma_contains(r);
            assert(inner.ordered());
            assert forall|k: K| #[trigger] inner.contains(k) implies lt(k, k2) by {
                if a.contains(k) {
                    assert(lt(k, k1));
                }
            }
            assert(r.ordered());
            assert(r.as_map() =~= t.as_map());
            assert(r.in_order() =~= t.in_order());
        }
    }
}

/// Rebalancing keeps the order, the entries, their number and their
/// in-order sequence.
pub proof fn lemma_rebalance_keeps<K: PartialOrd, V>(t: Tree<K, V>)
    requires
        total_order::<K>(),
        t.ordered(),
    ensures
        t.rebalance().ordered(),
        t.rebalance().as_map() == t.as_map(),
        t.rebalance().size() == t.size(),
        t.rebalance().in_order() == t.in_order(),
{
    if let Tree::Fork { left, key, value, right } = t {
        if t.tilt() == 2 {
            if left.tilt() < 0 {
                let mid = Tree::fork(left.rotate_left(), key, value, *right);
                lemma_rotate_left(*left);
                lemma_contains(t);
                lemma_contains(mid);
                assert(mid.ordered());
                assert(mid.as_map() =~= t.as_map());
                lemma_rotate_right(mid);
            } else {
                lemma_rotate_right(t);
            }
        } else if t.tilt() == -2 {
            if right.tilt() > 0 {
                let mid = Tree::fork(*left, key, value, right.rotate_right());
                lemma_rotate_right(*right);
                lemma_contains(t);
                lemma_contains(mid);
                assert(mid.ordered());
                assert(mid.as_map() =~= t.as_map());
                lemma_rotate_left(mid);
            } else {
                lemma_rotate_left(t);
            }
        }
    }
}

/// Rebalancing a fork whose subtrees are balanced and differ in height by
/// at most two yields a balanced tree, of the same height or one lower;
/// a fork that is balanced already is left as it is.
pub proof fn lemma_rebalance_restores<K, V>(t: Tree<K, V>)
    requires
        t matches Tree::Fork { left, right, .. } && left.balanced() && right.balanced(),
        -2 <= t.tilt() <= 2,
    ensures
        t.rebalance().balanced(),
        t.rebalance() is Fork,
        t.rebalance().height() == t.height() || t.rebalance().height() + 1 == t.height(),
        -1 <= t.tilt() <= 1 ==> t.rebalance() == t,
{
    reveal_with_fuel(Tree::height, 4);
    reveal_with_fuel(Tree::balanced, 4);
}

/// A height-balanced search tree passes the probe at every fork.
pub proof fn lemma_avl_passes_probe<K: PartialOrd, V>(t: Tree<K, V>)
    requires
        t.is_avl(),
    ensures
        t.passes_probe(),
    decreases t,
{
    if let Tree::Fork { left, right, .. } = t {
        lemma_avl_passes_probe(*left);
        lemma_avl_passes_probe(*right);
        lemma_contains(*left);
        lemma_contains(*right);
    }
}

} // verus!
