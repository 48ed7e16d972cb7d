//! The nodes of the tree: insertion, deletion and rebalancing by rotation,
//! search, and the walks over a subtree.

use crate::balance::{lemma_avl_passes_probe, lemma_contains, lemma_rebalance_restores};
use crate::height::{lemma_height_bound, MAX_HEIGHT};
use crate::levels::{
    children, lemma_forest_of_one, lemma_forests_in_a_row, lemma_levels_of_none, levels, roots,
};
use crate::order::{
    extended_by_clones, is_greatest, is_least, is_predecessor, is_successor, lemma_extended_by_none,
    lemma_extended_by_push, lemma_extended_twice, lt, total_order,
};
use crate::render::{renders, spelled_by, text_of, write_empty, write_fork};
use crate::tree::{keys_of, Tree};
use crate::update::{lemma_delete, lemma_insert, lemma_without_first, lemma_without_root};
use std::collections::VecDeque;
use std::fmt::Display;
use vstd::prelude::*;

verus! {

/// A subtree that may be empty.
pub type Link<K, V> = Option<Box<Node<K, V>>>;

/// One entry of the tree with the subtrees below it. Besides the entry a
/// node keeps the height of the subtree that it is the root of.
pub struct Node<K, V> {
    key: K,
    value: V,
    height: u32,
    left: Link<K, V>,
    right: Link<K, V>,
}

impl<K, V> View for Node<K, V> {
    type V = Tree<K, V>;

    /// The subtree rooted at this node.
    open spec fn view(&self) -> Tree<K, V> {
        self.subtree()
    }
}

/// The tree below a link: empty where the link is.
pub open spec fn link_view<K, V>(link: Link<K, V>) -> Tree<K, V> {
    match link {
        None => Tree::Empty,
        Some(node) => node@,
    }
}

/// The trees of the nodes of a queue, in the order of the queue.
pub open spec fn forest_of<K, V>(queue: Seq<&Box<Node<K, V>>>) -> Seq<Tree<K, V>> {
    queue.map_values(|node: &Box<Node<K, V>>| node@)
}

/// Every node below the link keeps the height of its subtree.
pub open spec fn link_heights_cached<K, V>(link: Link<K, V>) -> bool {
    match link {
        None => true,
        Some(node) => node.heights_cached(),
    }
}

/// Every node below the link is well-formed.
pub open spec fn link_well_formed<K: PartialOrd, V>(link: Link<K, V>) -> bool {
    match link {
        None => true,
        Some(node) => node.well_formed(),
    }
}

impl<K, V> Node<K, V> {
    /// The subtree rooted at this node: the tree of its entry above the
    /// trees of its two children.
    pub closed spec fn subtree(&self) -> Tree<K, V>
        decreases self,
    {
        Tree::fork(
            match self.left {
                None => Tree::Empty,
                Some(node) => node.subtree(),
            },
            self.key,
            self.value,
            match self.right {
                None => Tree::Empty,
                Some(node) => node.subtree(),
            },
        )
    }

    /// Every node of this subtree keeps, as its height, the height of the
    /// subtree that it is the root of.
    pub closed spec fn heights_cached(&self) -> bool
        decreases self,
    {
        &&& self.height == self@.height()
        &&& match self.left {
            None => true,
            Some(node) => node.heights_cached(),
        }
        &&& match self.right {
            None => true,
            Some(node) => node.heights_cached(),
        }
    }

    /// A node is the root of a non-empty tree.
    pub proof fn lemma_view_is_fork(&self)
        ensures
            self@ is Fork,
    {
    }

    /// What `subtree` and `heights_cached` say of a node in terms of its
    /// children.
    proof fn lemma_open(&self)
        ensures
            self@ == Tree::fork(
                link_view(self.left),
                self.key,
                self.value,
                link_view(self.right),
            ),
            self.heights_cached() <==> {
                &&& self.height == self@.height()
                &&& link_heights_cached(self.left)
                &&& link_heights_cached(self.right)
            },
    {
    }
}

impl<K: PartialOrd, V> Node<K, V> {
    /// The subtree is a height-balanced search tree whose nodes keep their
    /// heights and whose entries can be counted in a `usize`.
    pub open spec fn well_formed(&self) -> bool {
        &&& self.heights_cached()
        &&& self@.is_avl()
        &&& self@.size() <= usize::MAX
    }
}

impl<K: PartialOrd + Clone, V> Node<K, V> {
    /// A node without children.
    pub fn new(key: K, value: V) -> (node: Self)
        ensures
            node@ == Tree::leaf(key, value),
            node@.size() == 1,
            node.well_formed(),
    {
        let node = Node { key, value, height: 1, left: None, right: None };
        proof {
            node.lemma_open();
            reveal_with_fuel(Tree::height, 2);
            reveal_with_fuel(Tree::size, 2);
            reveal_with_fuel(Tree::balanced, 2);
            reveal_with_fuel(Tree::ordered, 2);
            lemma_contains(Tree::<K, V>::Empty);
        }
        node
    }

    /// Whether the node has no children.
    fn is_leaf(&self) -> (leaf: bool)
        ensures
            leaf == (self.left is None && self.right is None),
    {
        self.left.is_none() && self.right.is_none()
    }

    /// The height that the node below the link keeps; 0 for an empty link.
    fn height(node: &Link<K, V>) -> (h: u32)
        ensures
            h == match *node {
                None => 0,
                Some(n) => n.height,
            },
            link_heights_cached(*node) ==> h == link_view(*node).height(),
    {
        match node {
            None => 0,
            Some(n) => n.height,
        }
    }

    /// Sets the node's height to one more than the greater height of its
    /// children.
    fn update_height(&mut self)
        requires
            link_heights_cached(old(self).left),
            link_heights_cached(old(self).right),
            old(self)@.height() <= u32::MAX,
        ensures
            final(self).heights_cached(),
            final(self).key == old(self).key,
            final(self).value == old(self).value,
            final(self).left == old(self).left,
            final(self).right == old(self).right,
            final(self)@ == old(self)@,
    {
        let l = Self::height(&self.left);
        let r = Self::height(&self.right);
        self.height = if l >= r { l + 1 } else { r + 1 };
    }

    /// Rotates the subtree to the left and returns its new root, the former
    /// right child. The heights of the two nodes that moved are set anew, the
    /// lower one first.
    fn left_rotate(self) -> (root: Box<Node<K, V>>)
        requires
            self.heights_cached(),
            self.right is Some,
            self@.height() < u32::MAX,
        ensures
            root@ == self@.rotate_left(),
            root.heights_cached(),
    {
        proof {
            reveal_with_fuel(Tree::height, 3);
        }
        let mut node = self;
        let mut new_root = node.right.take().expect("AVL broken");
        proof {
            self.lemma_open();
            new_root.lemma_open();
        }
        node.right = new_root.left.take();
        proof {
            node.lemma_open();
        }
        node.update_height();
        new_root.left = Some(Box::new(node));
        proof {
            node.lemma_open();
            new_root.lemma_open();
        }
        new_root.update_height();
        new_root
    }

    /// Rotates the subtree to the right and returns its new root, the former
    /// left child. The heights of the two nodes that moved are set anew, the
    /// lower one first.
    fn right_rotate(self) -> (root: Box<Node<K, V>>)
        requires
            self.heights_cached(),
            self.left is Some,
            self@.height() < u32::MAX,
        ensures
            root@ == self@.rotate_right(),
            root.heights_cached(),
    {
        proof {
            reveal_with_fuel(Tree::height, 3);
        }
        let mut node = self;
        let mut new_root = node.left.take().expect("AVL broken");
        proof {
            self.lemma_open();
            new_root.lemma_open();
        }
        node.left = new_root.right.take();
        proof {
            node.lemma_open();
        }
        node.update_height();
        new_root.right = Some(Box::new(node));
        proof {
            node.lemma_open();
            new_root.lemma_open();
        }
        new_root.update_height();
        new_root
    }

    /// Rebalances a node whose left subtree is two higher than its right
    /// subtree.
    fn left_balance(self) -> (root: Box<Node<K, V>>)
        requires
            self.heights_cached(),
            self@.tilt() == 2,
            self@.height() <= MAX_HEIGHT + 1,
        ensures
            root@ == self@.balance_left(),
            root.heights_cached(),
    {
        proof {
            reveal_with_fuel(Tree::height, 3);
            self.lemma_open();
        }
        let mut node = self;
        let left = node.left.take().expect("AVL broken");
        proof {
            left.lemma_open();
        }
        if Self::height(&left.left) < Self::height(&left.right) {
            let rotated = left.left_rotate();
            node.left = Some(rotated);
            proof {
                node.lemma_open();
            }
            node.update_height();
        } else {
            node.left = Some(left);
            proof {
                node.lemma_open();
            }
        }
        node.right_rotate()
    }

    /// Rebalances a node whose right subtree is two higher than its left
    /// subtree.
    fn right_balance(self) -> (root: Box<Node<K, V>>)
        requires
            self.heights_cached(),
            self@.tilt() == -2,
            self@.height() <= MAX_HEIGHT + 1,
        ensures
            root@ == self@.balance_right(),
            root.heights_cached(),
    {
        proof {
            reveal_with_fuel(Tree::height, 3);
            self.lemma_open();
        }
        let mut node = self;
        let right = node.right.take().expect("AVL broken");
        proof {
            right.lemma_open();
        }
        if Self::height(&right.left) > Self::height(&right.right) {
            let rotated = right.right_rotate();
            node.right = Some(rotated);
            proof {
                node.lemma_open();
            }
            node.update_height();
        } else {
            node.right = Some(right);
            proof {
                node.lemma_open();
            }
        }
        node.left_rotate()
    }

    /// The height of the left subtree minus that of the right subtree.
    fn diff_of_height(&self) -> (diff: i32)
        requires
            self.heights_cached(),
            self@.height() <= MAX_HEIGHT + 1,
        ensures
            diff == self@.tilt(),
    {
        proof {
            self.lemma_open();
        }
        let l = Self::height(&self.left);
        let r = Self::height(&self.right);
        (l as i32) - (r as i32)
    }

    /// Rebalances the node where the heights of its subtrees differ by two.
    /// They never differ by more after a single insertion or deletion.
    fn rotate_if_necessary(self) -> (root: Box<Node<K, V>>)
        requires
            self.heights_cached(),
            -2 <= self@.tilt() <= 2,
            self@.height() <= MAX_HEIGHT + 1,
        ensures
            root@ == self@.rebalance(),
            root.heights_cached(),
    {
        let diff = self.diff_of_height();
        if -1 <= diff && diff <= 1 {
            Box::new(self)
        } else if diff == -2 {
            self.right_balance()
        } else if diff == 2 {
            self.left_balance()
        } else {
            unreached()
        }
    }

    /// Sets the node's height anew after a change below it and rebalances
    /// it.
    fn update_node(self) -> (root: Box<Node<K, V>>)
        requires
            link_heights_cached(self.left),
            link_heights_cached(self.right),
            -2 <= self@.tilt() <= 2,
            self@.height() <= MAX_HEIGHT + 1,
        ensures
            root@ == self@.rebalance(),
            root.heights_cached(),
    {
        let mut node = self;
        node.update_height();
        node.rotate_if_necessary()
    }

    /// Gives `key` the value `value` in this subtree and returns the root of
    /// the subtree as it then is. A key that is present keeps its node, which
    /// gets the new value; a new key gets a leaf of its own, and every node
    /// on the way to it is rebalanced.
    pub fn insert(self, key: K, value: V) -> (root: Box<Node<K, V>>)
        requires
            total_order::<K>(),
            self.well_formed(),
            self@.size() < usize::MAX,
        ensures
            root@ == self@.insert(key, value),
            root.well_formed(),
            root@.as_map() == self@.as_map().insert(key, value),
            root@.size() == self@.size() + if self@.contains(key) {
                0nat
            } else {
                1nat
            },
        decreases self,
    {
        proof {
            self.lemma_open();
            lemma_insert(self@, key, value);
        }
        let mut node = self;
        if node.key > key {
            match node.left.take() {
                None => {
                    node.left = Some(Box::new(Node::new(key, value)));
                },
                Some(child) => {
                    node.left = Some(child.insert(key, value));
                },
            }
        } else if node.key < key {
            match node.right.take() {
                None => {
                    node.right = Some(Box::new(Node::new(key, value)));
                },
                Some(child) => {
                    node.right = Some(child.insert(key, value));
                },
            }
        } else {
            node.value = value;
            proof {
                node.lemma_open();
            }
            return Box::new(node);
        }
        proof {
            node.lemma_open();
            lemma_insert(link_view(self.left), key, value);
            lemma_insert(link_view(self.right), key, value);
            lemma_height_bound(link_view(node.left));
            lemma_height_bound(link_view(node.right));
        }
        node.update_node()
    }

    /// Takes the node with the least key out of the subtree. Returns what is
    /// left of the subtree, rebalanced, and the node that was taken out,
    /// without its children.
    fn remove_min(self) -> (res: (Link<K, V>, Box<Node<K, V>>))
        requires
            total_order::<K>(),
            self.well_formed(),
        ensures
            link_view(res.0) == self@.without_first(),
            link_well_formed(res.0),
            self@.first() == Some((res.1.key, res.1.value)),
            res.1.left is None,
            res.1.right is None,
        decreases self,
    {
        proof {
            self.lemma_open();
            lemma_without_first(self@);
        }
        let mut node = self;
        match node.left.take() {
            Some(left) => {
                let (new_left, min) = left.remove_min();
                node.left = new_left;
                proof {
                    left.lemma_view_is_fork();
                    node.lemma_open();
                    lemma_without_first(link_view(self.left));
                    lemma_height_bound(link_view(node.left));
                    lemma_height_bound(link_view(node.right));
                }
                (Some(node.update_node()), min)
            },
            None => (node.right.take(), Box::new(node)),
        }
    }

    /// Joins two subtrees, all keys of `left` below all keys of `right`,
    /// under the least node of `right`.
    fn combine_two_subtrees(left: Node<K, V>, right: Node<K, V>) -> (root: Box<Node<K, V>>)
        requires
            total_order::<K>(),
            left.well_formed(),
            right.well_formed(),
            -1 <= left@.height() - right@.height() <= 1,
        ensures
            right@.first() is Some,
            root@ == Tree::fork(
                left@,
                right@.first().unwrap().0,
                right@.first().unwrap().1,
                right@.without_first(),
            ).rebalance(),
            root.heights_cached(),
    {
        let (remain_tree, min) = right.remove_min();
        let mut new_root = min;
        new_root.right = remain_tree;
        new_root.left = Some(Box::new(left));
        proof {
            new_root.lemma_open();
            right.lemma_view_is_fork();
            lemma_without_first(right@);
            lemma_height_bound(left@);
            lemma_height_bound(right@.without_first());
        }
        new_root.update_node()
    }

    /// Takes the root node out of the subtree and returns what is left.
    fn delete_root(self) -> (rest: Link<K, V>)
        requires
            total_order::<K>(),
            self.well_formed(),
        ensures
            link_view(rest) == self@.without_root(),
            link_heights_cached(rest),
    {
        proof {
            self.lemma_open();
        }
        let mut node = self;
        match (node.left.take(), node.right.take()) {
            (None, None) => None,
            (Some(left), None) => {
                proof {
                    left.lemma_view_is_fork();
                }
                Some(left)
            },
            (None, Some(right)) => Some(right),
            (Some(left), Some(right)) => {
                proof {
                    left.lemma_view_is_fork();
                }
                Some(Self::combine_two_subtrees(*left, *right))
            },
        }
    }

    /// Takes `key` out of this subtree and returns what is left of it. A
    /// subtree without the key is returned as it is. Otherwise the key's node
    /// is removed: a node with at most one child gives way to that child, a
    /// node with two children to the least node of its right subtree; every
    /// node on the way is rebalanced.
    pub fn delete(self, key: K) -> (rest: Link<K, V>)
        requires
            total_order::<K>(),
            self.well_formed(),
        ensures
            link_view(rest) == self@.delete(key),
            link_well_formed(rest),
            link_view(rest).as_map() == self@.as_map().remove(key),
            self@.size() == link_view(rest).size() + if self@.contains(key) {
                1nat
            } else {
                0nat
            },
        decreases self,
    {
        proof {
            self.lemma_open();
            lemma_delete(self@, key);
            lemma_rebalance_restores(self@);
        }
        let mut node = self;
        if node.key < key {
            if let Some(succ) = node.right.take() {
                node.right = succ.delete(key);
                proof {
                    node.lemma_open();
                    lemma_delete(link_view(self.right), key);
                    lemma_height_bound(link_view(node.left));
                    lemma_height_bound(link_view(node.right));
                }
                return Some(node.update_node());
            }
        } else if node.key > key {
            if let Some(succ) = node.left.take() {
                node.left = succ.delete(key);
                proof {
                    node.lemma_open();
                    lemma_delete(link_view(self.left), key);
                    lemma_height_bound(link_view(node.left));
                    lemma_height_bound(link_view(node.right));
                }
                return Some(node.update_node());
            }
        } else {
            let rest = node.delete_root();
            proof {
                lemma_without_root(self@);
            }
            return rest;
        }
        proof {
            node.lemma_open();
        }
        Some(Box::new(node))
    }

    /// The entry with the least key strictly above `key`, whether or not
    /// `key` itself is in the subtree; `None` where no key is above it.
    pub fn successor(&self, key: &K) -> (found: Option<(&K, &V)>)
        requires
            total_order::<K>(),
            self@.ordered(),
        ensures
            match found {
                Some((k, v)) => is_successor(self@.as_map(), *key, *k) && self@.as_map()[*k] == *v,
                None => forall|j: K| self@.contains(j) ==> !lt(*key, j),
            },
        decreases self,
    {
        proof {
            self.lemma_open();
            lemma_contains(self@);
        }
        if self.key > *key {
            match &self.left {
                None => Some((&self.key, &self.value)),
                Some(succ) => match succ.successor(key) {
                    Some(closer) => Some(closer),
                    None => Some((&self.key, &self.value)),
                },
            }
        } else if self.key < *key {
            match &self.right {
                None => None,
                Some(right) => right.successor(key),
            }
        } else {
            match &self.right {
                None => None,
                Some(right) => Some(right.min_pair()),
            }
        }
    }

    /// The entry with the greatest key strictly below `key`, whether or not
    /// `key` itself is in the subtree; `None` where no key is below it.
    pub fn predecessor(&self, key: &K) -> (found: Option<(&K, &V)>)
        requires
            total_order::<K>(),
            self@.ordered(),
        ensures
            match found {
                Some((k, v)) => is_predecessor(self@.as_map(), *key, *k) && self@.as_map()[*k]
                    == *v,
                None => forall|j: K| self@.contains(j) ==> !lt(j, *key),
            },
        decreases self,
    {
        proof {
            self.lemma_open();
            lemma_contains(self@);
        }
        if self.key < *key {
            match &self.right {
                None => Some((&self.key, &self.value)),
                Some(succ) => match succ.predecessor(key) {
                    Some(closer) => Some(closer),
                    None => Some((&self.key, &self.value)),
                },
            }
        } else if self.key > *key {
            match &self.left {
                None => None,
                Some(left) => left.predecessor(key),
            }
        } else {
            match &self.left {
                None => None,
                Some(left) => Some(left.max_pair()),
            }
        }
    }

    /// The entry of `key`, where the subtree holds one.
    pub fn search_pair(&self, key: &K) -> (found: Option<(&K, &V)>)
        requires
            total_order::<K>(),
            self@.ordered(),
        ensures
            match found {
                Some((k, v)) => *k == *key && self@.contains(*key) && self@.as_map()[*key] == *v,
                None => !self@.contains(*key),
            },
        decreases self,
    {
        proof {
            self.lemma_open();
            lemma_contains(self@);
        }
        if self.key < *key {
            match &self.right {
                None => None,
                Some(right) => right.search_pair(key),
            }
        } else if self.key > *key {
            match &self.left {
                None => None,
                Some(left) => left.search_pair(key),
            }
        } else {
            Some((&self.key, &self.value))
        }
    }

    /// The value of `key`, where the subtree holds one.
    pub fn search(&self, key: &K) -> (found: Option<&V>)
        requires
            total_order::<K>(),
            self@.ordered(),
        ensures
            match found {
                Some(v) => self@.contains(*key) && self@.as_map()[*key] == *v,
                None => !self@.contains(*key),
            },
    {
        match self.search_pair(key) {
            Some((_, v)) => Some(v),
            None => None,
        }
    }

    /// The entry with the least key, which is the leftmost one.
    pub fn min_pair(&self) -> (least: (&K, &V))
        requires
            total_order::<K>(),
            self@.ordered(),
        ensures
            self@.first() == Some((*least.0, *least.1)),
            is_least(self@.as_map(), *least.0),
            self@.as_map()[*least.0] == *least.1,
        decreases self,
    {
        proof {
            self.lemma_open();
            lemma_contains(self@);
        }
        match &self.left {
            None => (&self.key, &self.value),
            Some(left) => {
                proof {
                    left.lemma_view_is_fork();
                }
                left.min_pair()
            },
        }
    }

    /// The entry with the greatest key, which is the rightmost one.
    pub fn max_pair(&self) -> (greatest: (&K, &V))
        requires
            total_order::<K>(),
            self@.ordered(),
        ensures
            self@.last() == Some((*greatest.0, *greatest.1)),
            is_greatest(self@.as_map(), *greatest.0),
            self@.as_map()[*greatest.0] == *greatest.1,
        decreases self,
    {
        proof {
            self.lemma_open();
            lemma_contains(self@);
        }
        match &self.right {
            None => (&self.key, &self.value),
            Some(right) => {
                proof {
                    right.lemma_view_is_fork();
                }
                right.max_pair()
            },
        }
    }

    /// Appends to `buf` a clone of every key below `root` in pre-order.
    pub fn prev_order(root: &Link<K, V>, buf: &mut Vec<K>)
        ensures
            extended_by_clones(
                old(buf)@,
                final(buf)@,
                keys_of(link_view(*root).pre_order()),
            ),
        decreases root,
    {
        if let Some(node) = root {
            let ghost own = seq![(node.key, node.value)];
            let ghost l = link_view(node.left).pre_order();
            let ghost r = link_view(node.right).pre_order();
            let ghost b1 = buf@;
            buf.push(node.key.clone());
            let ghost b2 = buf@;
            Self::prev_order(&node.left, buf);
            let ghost b3 = buf@;
            Self::prev_order(&node.right, buf);
            proof {
                node.lemma_open();
                lemma_extended_by_push(b1, node.key, b2.last());
                assert(keys_of(own) =~= seq![node.key]);
                lemma_extended_twice(b1, b2, b3, keys_of(own), keys_of(l));
                lemma_extended_twice(b1, b3, buf@, keys_of(own) + keys_of(l), keys_of(r));
                assert(keys_of(own + l + r) =~= keys_of(own) + keys_of(l) + keys_of(r));
            }
        } else {
            proof {
                lemma_extended_by_none(buf@);
                assert(keys_of(link_view(*root).pre_order()) =~= Seq::empty());
            }
        }
    }

    /// Appends to `buf` a clone of every key below `root` in in-order.
    pub fn in_order(root: &Link<K, V>, buf: &mut Vec<K>)
        ensures
            extended_by_clones(
                old(buf)@,
                final(buf)@,
                keys_of(link_view(*root).in_order()),
            ),
        decreases root,
    {
        if let Some(node) = root {
            let ghost own = seq![(node.key, node.value)];
            let ghost l = link_view(node.left).in_order();
            let ghost r = link_view(node.right).in_order();
            let ghost b1 = buf@;
            Self::in_order(&node.left, buf);
            let ghost b2 = buf@;
            buf.push(node.key.clone());
            let ghost b3 = buf@;
            Self::in_order(&node.right, buf);
            proof {
                node.lemma_open();
                lemma_extended_by_push(b2, node.key, b3.last());
                assert(keys_of(own) =~= seq![node.key]);
                lemma_extended_twice(b1, b2, b3, keys_of(l), keys_of(own));
                lemma_extended_twice(b1, b3, buf@, keys_of(l) + keys_of(own), keys_of(r));
                assert(keys_of(l.push((node.key, node.value)) + r) =~= keys_of(l) + keys_of(own)
                    + keys_of(r));
            }
        } else {
            proof {
                lemma_extended_by_none(buf@);
                assert(keys_of(link_view(*root).in_order()) =~= Seq::empty());
            }
        }
    }

    /// Appends to `buf` a clone of every key below `root` in post-order.
    pub fn post_order(root: &Link<K, V>, buf: &mut Vec<K>)
        ensures
            extended_by_clones(
                old(buf)@,
                final(buf)@,
                keys_of(link_view(*root).post_order()),
            ),
        decreases root,
    {
        if let Some(node) = root {
            let ghost own = seq![(node.key, node.value)];
            let ghost l = link_view(node.left).post_order();
            let ghost r = link_view(node.right).post_order();
            let ghost b1 = buf@;
            Self::post_order(&node.left, buf);
            let ghost b2 = buf@;
            Self::post_order(&node.right, buf);
            let ghost b3 = buf@;
            buf.push(node.key.clone());
            proof {
                node.lemma_open();
                lemma_extended_by_push(b3, node.key, buf@.last());
                assert(keys_of(own) =~= seq![node.key]);
                lemma_extended_twice(b1, b2, b3, keys_of(l), keys_of(r));
                lemma_extended_twice(b1, b3, buf@, keys_of(l) + keys_of(r), keys_of(own));
                assert(keys_of((l + r).push((node.key, node.value))) =~= keys_of(l) + keys_of(r)
                    + keys_of(own));
            }
        } else {
            proof {
                lemma_extended_by_none(buf@);
                assert(keys_of(link_view(*root).post_order()) =~= Seq::empty());
            }
        }
    }

    /// Appends to `buf` a clone of every key below `root` in level order,
    /// with a queue of the nodes whose keys come next.
    pub fn level_order(root: &Link<K, V>, buf: &mut Vec<K>)
        ensures
            extended_by_clones(
                old(buf)@,
                final(buf)@,
                keys_of(link_view(*root).level_order()),
            ),
    {
        let mut queue: VecDeque<&Box<Node<K, V>>> = VecDeque::new();
        if let Some(node) = root {
            queue.push_back(node);
        }
        let ghost whole = link_view(*root).level_order();
        let ghost mut done: Seq<(K, V)> = Seq::empty();
        let ghost mut split: int = 0;
        let ghost mut depth: nat = link_view(*root).height();
        proof {
            let f = forest_of(queue@);
            assert(f.take(0) =~= Seq::empty());
            assert(f.skip(0) =~= f);
            assert(children(f.take(0)) =~= Seq::empty());
            assert(f + children(f.take(0)) =~= f);
            assert(roots(f.take(0)) =~= Seq::empty());
            if root is Some {
                assert(f =~= seq![link_view(*root)]);
            } else {
                assert(f =~= Seq::empty());
                lemma_levels_of_none::<K, V>(depth);
            }
            assert(whole =~= done + roots(f.take(0)) + levels(f + children(f.take(0)), depth));
            lemma_extended_by_none(buf@);
            assert(keys_of(done) =~= Seq::empty());
        }
        while queue.len() > 0
            invariant
                0 <= split <= queue@.len(),
                forall|i: int| 0 <= i < split ==> (#[trigger] queue@[i])@.height() <= depth + 1,
                forall|i: int|
                    split <= i < queue@.len() ==> (#[trigger] queue@[i])@.height() <= depth,
                whole == done + roots(forest_of(queue@).take(split)) + levels(
                    forest_of(queue@).skip(split) + children(forest_of(queue@).take(split)),
                    depth,
                ),
                extended_by_clones(old(buf)@, buf@, keys_of(done)),
            decreases whole.len() - done.len(),
        {
            let ghost q0 = queue@;
            let ghost f0 = forest_of(q0);
            let ghost b0 = buf@;
            if let Some(node) = queue.pop_front() {
                proof {
                    node.lemma_open();
                    assert(node == q0[0]);
                    if split == 0 {
                        assert(f0.take(0) =~= Seq::empty());
                        assert(f0.skip(0) =~= f0);
                        assert(children(f0.take(0)) =~= Seq::empty());
                        assert(roots(f0.take(0)) =~= Seq::empty());
                        assert(f0 + children(f0.take(0)) =~= f0);
                        assert(depth > 0);
                        split = q0.len() as int;
                        depth = (depth - 1) as nat;
                        assert(f0.take(split) =~= f0);
                        assert(f0.skip(split) =~= Seq::empty());
                        assert(f0.skip(split) + children(f0.take(split)) =~= children(f0));
                        assert(whole =~= done + roots(f0.take(split)) + levels(
                            f0.skip(split) + children(f0.take(split)),
                            depth,
                        ));
                    }
                }
                buf.push(node.key.clone());
                let ghost q1 = queue@;
                if let Some(left) = node.left.as_ref() {
                    queue.push_back(left);
                }
                let ghost q2 = queue@;
                if let Some(right) = node.right.as_ref() {
                    queue.push_back(right);
                }
                proof {
                    let t = node@;
                    let entry = (node.key, node.value);
                    let a = f0.take(split);
                    let b = f0.skip(split);
                    let a1 = a.drop_first();
                    let f3 = forest_of(queue@);
                    if node.left is Some {
                        node.left.unwrap().lemma_view_is_fork();
                    }
                    if node.right is Some {
                        node.right.unwrap().lemma_view_is_fork();
                    }
                    assert(f3 =~= f0.drop_first() + t.forks_below());
                    assert(a =~= seq![t] + a1);
                    lemma_forests_in_a_row(seq![t], a1);
                    lemma_forest_of_one(t);
                    assert(f3.take(split - 1) =~= a1);
                    assert(f3.skip(split - 1) =~= b + t.forks_below());
                    assert(f3.skip(split - 1) + children(a1) =~= b + children(a));
                    assert(whole =~= done.push(entry) + roots(a1) + levels(
                        f3.skip(split - 1) + children(f3.take(split - 1)),
                        depth,
                    ));
                    lemma_extended_by_push(b0, node.key, buf@.last());
                    lemma_extended_twice(old(buf)@, b0, buf@, keys_of(done), seq![node.key]);
                    assert(keys_of(done.push(entry)) =~= keys_of(done) + seq![node.key]);
                    reveal_with_fuel(Tree::height, 2);
                    done = done.push(entry);
                    split = split - 1;
                }
            }
        }
        proof {
            let f = forest_of(queue@);
            assert(f =~= Seq::empty());
            assert(f.take(split) =~= Seq::empty());
            assert(f.skip(split) + children(f.take(split)) =~= Seq::empty());
            lemma_levels_of_none::<K, V>(depth);
            assert(whole =~= done);
        }
    }

    /// Probes one node: its children's keys against its own, and the
    /// heights of its subtrees against each other.
    fn is_avl_node(&self) -> (valid: bool)
        requires
            total_order::<K>(),
            self.heights_cached(),
        ensures
            valid == {
                &&& (link_view(self.left) matches Tree::Fork { key: below, .. } ==> lt(
                    below,
                    self.key,
                ))
                &&& (link_view(self.right) matches Tree::Fork { key: above, .. } ==> lt(
                    self.key,
                    above,
                ))
                &&& -1 <= self@.tilt() <= 1
            },
    {
        proof {
            self.lemma_open();
            reveal_with_fuel(Tree::height, 2);
        }
        if self.is_leaf() {
            return true;
        }
        let left_below = match &self.left {
            None => true,
            Some(succ) => {
                proof {
                    succ.lemma_open();
                }
                succ.key < self.key
            },
        };
        if !left_below {
            return false;
        }
        let right_above = match &self.right {
            None => true,
            Some(succ) => {
                proof {
                    succ.lemma_open();
                }
                succ.key > self.key
            },
        };
        if !right_above {
            return false;
        }
        let l = Self::height(&self.left);
        let r = Self::height(&self.right);
        let off_balance = if l > r { l - r > 1 } else { r - l > 1 };
        if off_balance {
            return false;
        }
        true
    }

    /// Probes the subtree below `root` for the marks of a height-balanced
    /// search tree: at every node the left child's key is below the node's
    /// key, the right child's key above it, and the heights of the two
    /// subtrees differ by at most one. The empty subtree passes, and so does
    /// every well-formed subtree.
    pub fn is_avl_tree(root: &Link<K, V>) -> (valid: bool)
        requires
            total_order::<K>(),
            link_heights_cached(*root),
        ensures
            valid == link_view(*root).passes_probe(),
            link_well_formed(*root) ==> valid,
        decreases root,
    {
        proof {
            if link_view(*root).is_avl() {
                lemma_avl_passes_probe(link_view(*root));
            }
        }
        match root {
            None => true,
            Some(node) => {
                proof {
                    node.lemma_open();
                }
                if !node.is_avl_node() {
                    return false;
                }
                Self::is_avl_tree(&node.left) && Self::is_avl_tree(&node.right)
            },
        }
    }
}

impl<K: PartialOrd + Display, V: Display> Node<K, V> {
    /// The subtree as text: `[K: key, V: value, L: left, R: right]`, with
    /// the key and the value as their `Display` gives them and each child
    /// as the text of its subtree.
    pub fn to_string(&self) -> (text: String)
        ensures
            renders(self@, text@),
        decreases self,
    {
        proof {
            self.lemma_open();
        }
        let key = self.key.to_string();
        let value = self.value.to_string();
        let left = to_string(&self.left);
        let right = to_string(&self.right);
        let text = write_fork(key.as_str(), value.as_str(), left.as_str(), right.as_str());
        proof {
            let l = choose|l: Tree<String, String>| #[trigger]
                spelled_by(link_view(self.left), l) && left@ == text_of(l);
            let r = choose|r: Tree<String, String>| #[trigger]
                spelled_by(link_view(self.right), r) && right@ == text_of(r);
            let texts = Tree::fork(l, key, value, r);
            assert(spelled_by(self@, texts));
            assert(text@ == text_of(texts));
        }
        text
    }
}

/// The subtree below `node` as text; an empty subtree reads `Ø`.
pub fn to_string<K: PartialOrd + Display, V: Display>(node: &Link<K, V>) -> (text: String)
    ensures
        renders(link_view(*node), text@),
    decreases node,
{
    match node {
        None => {
            proof {
                assert(spelled_by(link_view(*node), Tree::<String, String>::Empty));
            }
            write_empty()
        },
        Some(box_node) => box_node.to_string(),
    }
}

} // verus!
