//! The tree as a container: an ordered map from keys to values.

use crate::balance::lemma_avl_passes_probe;
use crate::iterator::{entries_of, RangePairIter, TraverseIter};
use crate::node::{link_heights_cached, link_view, to_string, Link, Node};
use crate::order::{
    clones_of, faithful_clone, is_greatest, is_least, is_predecessor, is_successor, lt,
    total_order,
};
use crate::range::lemma_between_ascending;
use crate::render::renders;
use crate::tree::{keys_of, Tree};
use crate::walks::{
    ascending, found_by_clones, lemma_found_by_faithful_clones, lemma_in_order_ascending,
    lemma_level_order_within, lemma_walks_within,
};
use std::collections::{Bound, VecDeque};
use std::fmt::Display;
use vstd::prelude::*;
use vstd::string::StringExecFns;

verus! {

/// An ordered map from keys to values, kept as a height-balanced search
/// tree.
pub struct AVLTree<K, V> {
    root: Link<K, V>,
}

impl<K, V> View for AVLTree<K, V> {
    type V = Tree<K, V>;

    /// The tree of the entries.
    closed spec fn view(&self) -> Tree<K, V> {
        link_view(self.root)
    }
}

impl<K, V> AVLTree<K, V> {
    /// Every node keeps the height of the subtree that it is the root of.
    pub closed spec fn heights_cached(&self) -> bool {
        link_heights_cached(self.root)
    }
}

impl<K: PartialOrd, V> AVLTree<K, V> {
    /// The tree is a height-balanced search tree whose nodes keep their
    /// heights and whose entries can be counted in a `usize`.
    pub open spec fn well_formed(&self) -> bool {
        &&& self.heights_cached()
        &&& self@.is_avl()
        &&& self@.size() <= usize::MAX
    }
}

impl<K: PartialOrd + Clone, V> AVLTree<K, V> {
    /// The empty tree.
    pub fn new() -> (tree: Self)
        ensures
            tree@ is Empty,
            tree.well_formed(),
    {
        Self { root: None }
    }

    /// Gives `key` the value `value`: a key that is present gets the new
    /// value in place of its old one, a new key is added.
    pub fn insert(&mut self, key: K, value: V)
        requires
            total_order::<K>(),
            old(self).well_formed(),
            old(self)@.size() < usize::MAX,
        ensures
            final(self).well_formed(),
            final(self)@ == old(self)@.insert(key, value),
            final(self)@.as_map() == old(self)@.as_map().insert(key, value),
            final(self)@.size() == old(self)@.size() + if old(self)@.contains(key) {
                0nat
            } else {
                1nat
            },
    {
        match self.root.take() {
            None => {
                self.root = Some(Box::new(Node::new(key, value)));
                proof {
                    assert(self@.as_map() =~= old(self)@.as_map().insert(key, value));
                }
            },
            Some(node) => {
                self.root = Some(node.insert(key, value));
            },
        }
    }

    /// Takes `key` and its value out of the tree; a tree without the key is
    /// left as it is.
    pub fn delete(&mut self, key: K)
        requires
            total_order::<K>(),
            old(self).well_formed(),
        ensures
            final(self).well_formed(),
            final(self)@ == old(self)@.delete(key),
            final(self)@.as_map() == old(self)@.as_map().remove(key),
            old(self)@.size() == final(self)@.size() + if old(self)@.contains(key) {
                1nat
            } else {
                0nat
            },
    {
        if let Some(node) = self.root.take() {
            self.root = node.delete(key);
        } else {
            proof {
                assert(self@.as_map() =~= old(self)@.as_map().remove(key));
            }
        }
    }

    /// Whether the tree has no entries.
    pub fn is_empty(&self) -> (empty: bool)
        ensures
            empty == (self@ is Empty),
    {
        proof {
            if self.root is Some {
                self.root.unwrap().lemma_view_is_fork();
            }
        }
        self.root.is_none()
    }

    /// The entry of `key`, where the tree holds one.
    pub fn get_pair(&self, key: &K) -> (found: Option<(&K, &V)>)
        requires
            total_order::<K>(),
            self.well_formed(),
        ensures
            match found {
                Some((k, v)) => *k == *key && self@.contains(*key) && self@.as_map()[*key] == *v,
                None => !self@.contains(*key),
            },
    {
        match &self.root {
            None => None,
            Some(node) => node.search_pair(key),
        }
    }

    /// The value of `key`, where the tree holds one.
    pub fn get(&self, key: &K) -> (found: Option<&V>)
        requires
            total_order::<K>(),
            self.well_formed(),
        ensures
            match found {
                Some(v) => self@.contains(*key) && self@.as_map()[*key] == *v,
                None => !self@.contains(*key),
            },
    {
        match &self.root {
            None => None,
            Some(node) => node.search(key),
        }
    }

    /// The value of `key`, or `default` where the tree does not hold the
    /// key.
    pub fn get_or<'a>(&'a self, key: &K, default: &'a V) -> (value: &'a V)
        requires
            total_order::<K>(),
            self.well_formed(),
        ensures
            *value == if self@.contains(*key) {
                self@.as_map()[*key]
            } else {
                *default
            },
    {
        match self.get(key) {
            Some(data) => data,
            None => default,
        }
    }

    /// Whether the tree holds `key`.
    pub fn contains(&self, key: &K) -> (found: bool)
        requires
            total_order::<K>(),
            self.well_formed(),
        ensures
            found == self@.contains(*key),
    {
        self.get(key).is_some()
    }

    /// The entry with the least key; `None` for the empty tree.
    pub fn min_pair(&self) -> (least: Option<(&K, &V)>)
        requires
            total_order::<K>(),
            self.well_formed(),
        ensures
            match least {
                Some((k, v)) => {
                    &&& self@.first() == Some((*k, *v))
                    &&& is_least(self@.as_map(), *k)
                    &&& self@.as_map()[*k] == *v
                },
                None => self@ is Empty,
            },
    {
        match &self.root {
            None => None,
            Some(node) => Some(node.min_pair()),
        }
    }

    /// The entry with the greatest key; `None` for the empty tree.
    pub fn max_pair(&self) -> (greatest: Option<(&K, &V)>)
        requires
            total_order::<K>(),
            self.well_formed(),
        ensures
            match greatest {
                Some((k, v)) => {
                    &&& self@.last() == Some((*k, *v))
                    &&& is_greatest(self@.as_map(), *k)
                    &&& self@.as_map()[*k] == *v
                },
                None => self@ is Empty,
            },
    {
        match &self.root {
            None => None,
            Some(node) => Some(node.max_pair()),
        }
    }

    /// Probes the tree for the marks of a height-balanced search tree. The
    /// empty tree does not pass; a tree with entries passes where at every
    /// node the left child's key is below the node's key, the right child's
    /// key above it, and the heights of the two subtrees differ by at most
    /// one. A well-formed tree with entries always passes.
    pub fn is_avl_tree(&self) -> (valid: bool)
        requires
            total_order::<K>(),
            self.heights_cached(),
        ensures
            valid == (self@ is Fork && self@.passes_probe()),
            self.well_formed() ==> valid == (self@ is Fork),
    {
        proof {
            if self@.is_avl() {
                lemma_avl_passes_probe(self@);
            }
            if self.root is Some {
                self.root.unwrap().lemma_view_is_fork();
            }
        }
        if self.root.is_none() {
            return false;
        }
        Node::is_avl_tree(&self.root)
    }

    /// The entry with the least key strictly above `key`, whether or not the
    /// tree holds `key`; `None` where no key is above it.
    pub fn successor(&self, key: &K) -> (found: Option<(&K, &V)>)
        requires
            total_order::<K>(),
            self.well_formed(),
        ensures
            match found {
                Some((k, v)) => is_successor(self@.as_map(), *key, *k) && self@.as_map()[*k] == *v,
                None => forall|j: K| self@.contains(j) ==> !lt(*key, j),
            },
    {
        match &self.root {
            None => None,
            Some(node) => node.successor(key),
        }
    }

    /// The entry with the greatest key strictly below `key`, whether or not
    /// the tree holds `key`; `None` where no key is below it.
    pub fn predecessor(&self, key: &K) -> (found: Option<(&K, &V)>)
        requires
            total_order::<K>(),
            self.well_formed(),
        ensures
            match found {
                Some((k, v)) => is_predecessor(self@.as_map(), *key, *k) && self@.as_map()[*k]
                    == *v,
                None => forall|j: K| self@.contains(j) ==> !lt(j, *key),
            },
    {
        match &self.root {
            None => None,
            Some(node) => node.predecessor(key),
        }
    }

    /// An iterator over the entries whose keys lie between `min` and `max`,
    /// by ascending key.
    pub fn range_pair_iter(&self, min: Bound<K>, max: Bound<K>) -> (iter: RangePairIter<'_, K, V>)
        requires
            self.well_formed(),
        ensures
            iter.well_formed(),
            iter@ == self@.entries_between(min, max),
            total_order::<K>() ==> ascending(iter@),
    {
        proof {
            if total_order::<K>() {
                lemma_between_ascending(self@, min, max);
            }
        }
        RangePairIter::new(self, min, max)
    }

    /// An iterator over the entries in pre-order. The entries are found by
    /// looking up a clone of each key of the walk; where cloning is faithful
    /// these are the entries of the walk.
    pub fn preorder_iter(&self) -> (iter: TraverseIter<'_, K, V>)
        requires
            total_order::<K>(),
            self.well_formed(),
        ensures
            found_by_clones(self@, self@.pre_order(), iter@),
            faithful_clone::<K>() ==> iter@ == self@.pre_order(),
    {
        let pre_order = self.prev_order();
        let iter = TraverseIter::new(self.pairs_of(&pre_order));
        proof {
            lemma_walks_within(self@);
            if faithful_clone::<K>() {
                lemma_found_by_faithful_clones(self@, self@.pre_order(), iter@);
            }
        }
        iter
    }

    /// An iterator over the entries in in-order. The entries are found by
    /// looking up a clone of each key of the walk; where cloning is faithful
    /// these are the entries of the walk, by strictly ascending key.
    pub fn inorder_iter(&self) -> (iter: TraverseIter<'_, K, V>)
        requires
            total_order::<K>(),
            self.well_formed(),
        ensures
            found_by_clones(self@, self@.in_order(), iter@),
            faithful_clone::<K>() ==> iter@ == self@.in_order() && ascending(iter@),
    {
        let in_order = self.in_order();
        let iter = TraverseIter::new(self.pairs_of(&in_order));
        proof {
            lemma_walks_within(self@);
            lemma_in_order_ascending(self@);
            if faithful_clone::<K>() {
                lemma_found_by_faithful_clones(self@, self@.in_order(), iter@);
            }
        }
        iter
    }

    /// An iterator over the entries in post-order. The entries are found by
    /// looking up a clone of each key of the walk; where cloning is faithful
    /// these are the entries of the walk.
    pub fn postorder_iter(&self) -> (iter: TraverseIter<'_, K, V>)
        requires
            total_order::<K>(),
            self.well_formed(),
        ensures
            found_by_clones(self@, self@.post_order(), iter@),
            faithful_clone::<K>() ==> iter@ == self@.post_order(),
    {
        let post_order = self.post_order();
        let iter = TraverseIter::new(self.pairs_of(&post_order));
        proof {
            lemma_walks_within(self@);
            if faithful_clone::<K>() {
                lemma_found_by_faithful_clones(self@, self@.post_order(), iter@);
            }
        }
        iter
    }

    /// An iterator over the entries in level order. The entries are found by
    /// looking up a clone of each key of the walk; where cloning is faithful
    /// these are the entries of the walk.
    pub fn levelorder_iter(&self) -> (iter: TraverseIter<'_, K, V>)
        requires
            total_order::<K>(),
            self.well_formed(),
        ensures
            found_by_clones(self@, self@.level_order(), iter@),
            faithful_clone::<K>() ==> iter@ == self@.level_order(),
    {
        let level_order = self.level_order();
        let iter = TraverseIter::new(self.pairs_of(&level_order));
        proof {
            lemma_level_order_within(self@);
            if faithful_clone::<K>() {
                lemma_found_by_faithful_clones(self@, self@.level_order(), iter@);
            }
        }
        iter
    }

    /// Looks up the entry of each key of `keys`, in their order, and leaves
    /// out the keys that the tree does not hold.
    fn pairs_of(&self, keys: &Vec<K>) -> (queue: VecDeque<(&K, &V)>)
        requires
            total_order::<K>(),
            self.well_formed(),
        ensures
            entries_of(queue@) == self@.entries_at(keys@),
    {
        let mut queue = VecDeque::new();
        let mut i: usize = 0;
        proof {
            assert(keys@.take(0) =~= Seq::empty());
            assert(entries_of(queue@) =~= self@.entries_at(keys@.take(0)));
        }
        while i < keys.len()
            invariant
                total_order::<K>(),
                self.well_formed(),
                i <= keys.len(),
                entries_of(queue@) == self@.entries_at(keys@.take(i as int)),
            decreases keys.len() - i,
        {
            let ghost before = queue@;
            if let Some(p) = self.get_pair(&keys[i]) {
                queue.push_back(p);
                proof {
                    assert(entries_of(queue@) =~= entries_of(before).push((*p.0, *p.1)));
                }
            }
            proof {
                assert(keys@.take(i + 1).drop_last() =~= keys@.take(i as int));
            }
            i += 1;
        }
        proof {
            assert(keys@.take(i as int) =~= keys@);
        }
        queue
    }

    fn prev_order(&self) -> (buf: Vec<K>)
        ensures
            clones_of(keys_of(self@.pre_order()), buf@),
    {
        let mut buf = Vec::new();
        Node::prev_order(&self.root, &mut buf);
        proof {
            assert(buf@.skip(0) =~= buf@);
        }
        buf
    }

    fn in_order(&self) -> (buf: Vec<K>)
        ensures
            clones_of(keys_of(self@.in_order()), buf@),
    {
        let mut buf = Vec::new();
        Node::in_order(&self.root, &mut buf);
        proof {
            assert(buf@.skip(0) =~= buf@);
        }
        buf
    }

    fn post_order(&self) -> (buf: Vec<K>)
        ensures
            clones_of(keys_of(self@.post_order()), buf@),
    {
        let mut buf = Vec::new();
        Node::post_order(&self.root, &mut buf);
        proof {
            assert(buf@.skip(0) =~= buf@);
        }
        buf
    }

    fn level_order(&self) -> (buf: Vec<K>)
        ensures
            clones_of(keys_of(self@.level_order()), buf@),
    {
        let mut buf = Vec::new();
        Node::level_order(&self.root, &mut buf);
        proof {
            assert(buf@.skip(0) =~= buf@);
        }
        buf
    }
}

impl<K: PartialOrd + Display, V: Display> AVLTree<K, V> {
    /// The tree as text: the empty tree reads `None`, any other tree as the
    /// text of its root node.
    pub fn to_string(&self) -> (text: String)
        ensures
            match self@ {
                Tree::Empty => text@ == "None"@,
                _ => renders(self@, text@),
            },
    {
        match &self.root {
            None => String::from_str("None"),
            Some(node) => {
                proof {
                    node.lemma_view_is_fork();
                }
                node.to_string()
            },
        }
    }
}

impl<K: PartialOrd + Clone, V> Default for AVLTree<K, V> {
    /// The empty tree.
    fn default() -> (tree: Self)
        ensures
            tree@ is Empty,
            tree.well_formed(),
    {
        Self::new()
    }
}

} // verus!
