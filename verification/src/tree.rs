//! The mathematical model of a binary search tree: its shape, what it
//! holds, the orders in which it can be walked, and the rebalancing
//! updates that keep it height-balanced.

use crate::order::lt;
use vstd::prelude::*;

verus! {

/// A binary tree with a key and a value at every fork.
pub enum Tree<K, V> {
    Empty,
    Fork { left: Box<Tree<K, V>>, key: K, value: V, right: Box<Tree<K, V>> },
}

/// The keys of a sequence of entries.
pub open spec fn keys_of<K, V>(entries: Seq<(K, V)>) -> Seq<K> {
    entries.map_values(|entry: (K, V)| entry.0)
}

impl<K, V> Tree<K, V> {
    /// The tree with `key` and `value` at its root, above `left` and `right`.
    pub open spec fn fork(left: Self, key: K, value: V, right: Self) -> Self {
        Tree::Fork { left: Box::new(left), key, value, right: Box::new(right) }
    }

    /// The tree of a single entry.
    pub open spec fn leaf(key: K, value: V) -> Self {
        Self::fork(Tree::Empty, key, value, Tree::Empty)
    }

    /// The number of forks on the longest path from the root downwards.
    pub open spec fn height(self) -> nat
        decreases self,
    {
        match self {
            Tree::Empty => 0,
            Tree::Fork { left, right, .. } => {
                let l = left.height();
                let r = right.height();
                if l >= r { l + 1 } else { r + 1 }
            },
        }
    }

    /// The number of forks.
    pub open spec fn size(self) -> nat
        decreases self,
    {
        match self {
            Tree::Empty => 0,
            Tree::Fork { left, right, .. } => left.size() + 1 + right.size(),
        }
    }

    /// The entries, as a map from key to value.
    pub open spec fn as_map(self) -> Map<K, V>
        decreases self,
    {
        match self {
            Tree::Empty => Map::empty(),
            Tree::Fork { left, key, value, right } => left.as_map().union_prefer_right(
                right.as_map(),
            ).insert(key, value),
        }
    }

    /// `key` occurs in the tree.
    #[verifier::inline]
    pub open spec fn contains(self, key: K) -> bool {
        self.as_map().contains_key(key)
    }

    /// The entries in pre-order: a fork's entry, then its left subtree, then
    /// its right subtree.
    pub open spec fn pre_order(self) -> Seq<(K, V)>
        decreases self,
    {
        match self {
            Tree::Empty => Seq::empty(),
            Tree::Fork { left, key, value, right } => seq![(key, value)] + left.pre_order()
                + right.pre_order(),
        }
    }

    /// The entries in in-order: a fork's left subtree, then its entry, then
    /// its right subtree.
    pub open spec fn in_order(self) -> Seq<(K, V)>
        decreases self,
    {
        match self {
            Tree::Empty => Seq::empty(),
            Tree::Fork { left, key, value, right } => left.in_order().push((key, value))
                + right.in_order(),
        }
    }

    /// The entries in post-order: a fork's left subtree, then its right
    /// subtree, then its entry.
    pub open spec fn post_order(self) -> Seq<(K, V)>
        decreases self,
    {
        match self {
            Tree::Empty => Seq::empty(),
            Tree::Fork { left, key, value, right } => (left.post_order()
                + right.post_order()).push((key, value)),
        }
    }

    /// The two trees have the same forks with the same keys; only the
    /// values may differ.
    pub open spec fn same_shape(self, other: Self) -> bool
        decreases self,
    {
        match (self, other) {
            (Tree::Empty, Tree::Empty) => true,
            (
                Tree::Fork { left: l1, key: k1, right: r1, .. },
                Tree::Fork { left: l2, key: k2, right: r2, .. },
            ) => k1 == k2 && l1.same_shape(*l2) && r1.same_shape(*r2),
            _ => false,
        }
    }

    /// The height of the left subtree minus that of the right subtree.
    pub open spec fn tilt(self) -> int {
        match self {
            Tree::Empty => 0,
            Tree::Fork { left, right, .. } => left.height() - right.height(),
        }
    }

    /// At every fork the heights of the two subtrees differ by at most one.
    pub open spec fn balanced(self) -> bool
        decreases self,
    {
        match self {
            Tree::Empty => true,
            Tree::Fork { left, right, .. } => {
                &&& left.balanced()
                &&& right.balanced()
                &&& -1 <= self.tilt() <= 1
            },
        }
    }

    /// The leftmost entry, which in a search tree has the least key.
    pub open spec fn first(self) -> Option<(K, V)>
        decreases self,
    {
        match self {
            Tree::Empty => None,
            Tree::Fork { left, key, value, .. } => if *left is Empty {
                Some((key, value))
            } else {
                left.first()
            },
        }
    }

    /// The rightmost entry, which in a search tree has the greatest key.
    pub open spec fn last(self) -> Option<(K, V)>
        decreases self,
    {
        match self {
            Tree::Empty => None,
            Tree::Fork { key, value, right, .. } => if *right is Empty {
                Some((key, value))
            } else {
                right.last()
            },
        }
    }

    /// A single rotation to the left: the right child becomes the root, the
    /// old root becomes its left child and takes over the new root's former
    /// left subtree as its right subtree. A tree without a right child is
    /// left as it is.
    pub open spec fn rotate_left(self) -> Self {
        match self {
            Tree::Fork { left: a, key: k1, value: v1, right } => match *right {
                Tree::Fork { left: b, key: k2, value: v2, right: c } => Self::fork(
                    Self::fork(*a, k1, v1, *b),
                    k2,
                    v2,
                    *c,
                ),
                Tree::Empty => self,
            },
            Tree::Empty => self,
        }
    }

    /// A single rotation to the right, the mirror image of `rotate_left`.
    pub open spec fn rotate_right(self) -> Self {
        match self {
            Tree::Fork { left, key: k2, value: v2, right: c } => match *left {
                Tree::Fork { left: a, key: k1, value: v1, right: b } => Self::fork(
                    *a,
                    k1,
                    v1,
                    Self::fork(*b, k2, v2, *c),
                ),
                Tree::Empty => self,
            },
            Tree::Empty => self,
        }
    }

    /// Restores the balance of a fork whose left subtree is two higher than
    /// its right subtree: where the left child leans to the right it is
    /// first rotated to the left, then the fork is rotated to the right.
    pub open spec fn balance_left(self) -> Self {
        match self {
            Tree::Fork { left, key, value, right } => if left.tilt() < 0 {
                Self::fork(left.rotate_left(), key, value, *right).rotate_right()
            } else {
                self.rotate_right()
            },
            Tree::Empty => self,
        }
    }

    /// Restores the balance of a fork whose right subtree is two higher than
    /// its left subtree, the mirror image of `balance_left`.
    pub open spec fn balance_right(self) -> Self {
        match self {
            Tree::Fork { left, key, value, right } => if right.tilt() > 0 {
                Self::fork(*left, key, value, right.rotate_right()).rotate_left()
            } else {
                self.rotate_left()
            },
            Tree::Empty => self,
        }
    }

    /// Restores the balance at the root where the subtrees' heights differ
    /// by two, and leaves every other tree as it is.
    pub open spec fn rebalance(self) -> Self {
        if self.tilt() == 2 {
            self.balance_left()
        } else if self.tilt() == -2 {
            self.balance_right()
        } else {
            self
        }
    }

    /// The tree without its leftmost entry, every fork on the path to that
    /// entry rebalanced.
    pub open spec fn without_first(self) -> Self
        decreases self,
    {
        match self {
            Tree::Empty => Tree::Empty,
            Tree::Fork { left, key, value, right } => if *left is Empty {
                *right
            } else {
                Self::fork(left.without_first(), key, value, *right).rebalance()
            },
        }
    }

    /// The tree without its root entry: a missing subtree is replaced by the
    /// other one; between two subtrees the leftmost entry of the right one
    /// moves up to the root.
    pub open spec fn without_root(self) -> Self {
        match self {
            Tree::Empty => Tree::Empty,
            Tree::Fork { left, right, .. } => if *left is Empty {
                *right
            } else {
                match right.first() {
                    None => *left,
                    Some((k, v)) => Self::fork(*left, k, v, right.without_first()).rebalance(),
                }
            },
        }
    }
}

impl<K: PartialOrd, V> Tree<K, V> {
    /// The search-tree order: at every fork the keys of the left subtree are
    /// below the fork's key and those of the right subtree above it.
    pub open spec fn ordered(self) -> bool
        decreases self,
    {
        match self {
            Tree::Empty => true,
            Tree::Fork { left, key, right, .. } => {
                &&& left.ordered()
                &&& right.ordered()
                &&& forall|k: K| #[trigger] left.contains(k) ==> lt(k, key)
                &&& forall|k: K| #[trigger] right.contains(k) ==> lt(key, k)
            },
        }
    }

    /// The tree is a height-balanced search tree.
    pub open spec fn is_avl(self) -> bool {
        self.ordered() && self.balanced()
    }

    /// What a walk over the tree can test at each fork by looking no further
    /// than the fork's children: the key of the left child is below the
    /// fork's key, that of the right child above it, and the heights of the
    /// two subtrees differ by at most one.
    pub open spec fn passes_probe(self) -> bool
        decreases self,
    {
        match self {
            Tree::Empty => true,
            Tree::Fork { left, key, right, .. } => {
                &&& (*left matches Tree::Fork { key: below, .. } ==> lt(below, key))
                &&& (*right matches Tree::Fork { key: above, .. } ==> lt(key, above))
                &&& -1 <= self.tilt() <= 1
                &&& left.passes_probe()
                &&& right.passes_probe()
            },
        }
    }

    /// The tree after `key` has been given `value`. A key that is present
    /// keeps its place and gets the new value; a new key becomes a leaf at
    /// the end of its search path, and every fork on that path is
    /// rebalanced on the way back up.
    pub open spec fn insert(self, key: K, value: V) -> Self
        decreases self,
    {
        match self {
            Tree::Empty => Self::leaf(key, value),
            Tree::Fork { left, key: k, value: v, right } => if lt(key, k) {
                Self::fork(left.insert(key, value), k, v, *right).rebalance()
            } else if lt(k, key) {
                Self::fork(*left, k, v, right.insert(key, value)).rebalance()
            } else {
                Self::fork(*left, k, value, *right)
            },
        }
    }

    /// The tree without `key`. A tree that does not hold the key is left as
    /// it is; otherwise the key's fork is removed and every fork on the path
    /// to it is rebalanced on the way back up.
    pub open spec fn delete(self, key: K) -> Self
        decreases self,
    {
        match self {
            Tree::Empty => Tree::Empty,
            Tree::Fork { left, key: k, value: v, right } => if lt(k, key) {
                Self::fork(*left, k, v, right.delete(key)).rebalance()
            } else if lt(key, k) {
                Self::fork(left.delete(key), k, v, *right).rebalance()
            } else {
                self.without_root()
            },
        }
    }
}

} // verus!
