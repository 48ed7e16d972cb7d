//! What the walks over a tree yield: every walk yields entries of the
//! tree, and the in-order walk of a search tree yields them by ascending
//! key.

use crate::balance::lemma_contains;
use crate::levels::{children, levels, roots};
use crate::order::{clones_of, faithful_clone, lemma_faithful_clones, lt, total_order};
use crate::tree::{keys_of, Tree};
use vstd::prelude::*;

verus! {

impl<K, V> Tree<K, V> {
    /// `entry` stands at one of the forks of the tree.
    pub open spec fn has_entry(self, entry: (K, V)) -> bool
        decreases self,
    {
        match self {
            Tree::Empty => false,
            Tree::Fork { left, key, value, right } => {
                ||| entry == (key, value)
                ||| left.has_entry(entry)
                ||| right.has_entry(entry)
            },
        }
    }
}

impl<K, V> Tree<K, V> {
    /// The entries of those keys of `keys` that the tree holds, in the order
    /// of `keys`.
    pub open spec fn entries_at(self, keys: Seq<K>) -> Seq<(K, V)>
        decreases keys.len(),
    {
        if keys.len() == 0 {
            Seq::empty()
        } else {
            let before = self.entries_at(keys.drop_last());
            if self.contains(keys.last()) {
                before.push((keys.last(), self.as_map()[keys.last()]))
            } else {
                before
            }
        }
    }
}

/// `found` is what looking up a clone of each key of `walk` finds in the
/// tree, in the order of the walk.
pub open spec fn found_by_clones<K: Clone, V>(
    t: Tree<K, V>,
    walk: Seq<(K, V)>,
    found: Seq<(K, V)>,
) -> bool {
    exists|keys: Seq<K>| #[trigger] clones_of(keys_of(walk), keys) && found == t.entries_at(keys)
}

/// Every element of `entries` stands at a fork of `t`.
pub open spec fn all_within<K, V>(entries: Seq<(K, V)>, t: Tree<K, V>) -> bool {
    forall|i: int| 0 <= i < entries.len() ==> t.has_entry(#[trigger] entries[i])
}

/// The keys of `entries` ascend strictly.
pub open spec fn ascending<K: PartialOrd, V>(entries: Seq<(K, V)>) -> bool {
    forall|i: int, j: int|
        0 <= i < j < entries.len() ==> lt((#[trigger] entries[i]).0, (#[trigger] entries[j]).0)
}

/// In a search tree an entry that stands at a fork is what the tree's map
/// holds at the entry's key.
pub proof fn lemma_entry_in_map<K: PartialOrd, V>(t: Tree<K, V>, entry: (K, V))
    requires
        total_order::<K>(),
        t.ordered(),
        t.has_entry(entry),
    ensures
        t.contains(entry.0),
        t.as_map()[entry.0] == entry.1,
    decreases t,
{
    if let Tree::Fork { left, key, value, right } = t {
        lemma_contains(t);
        if entry == (key, value) {
        } else if left.has_entry(entry) {
            lemma_entry_in_map(*left, entry);
        } else {
            lemma_entry_in_map(*right, entry);
        }
    }
}

/// Looking up the keys of entries of a search tree finds these entries.
pub proof fn lemma_entries_at_walk<K: PartialOrd, V>(t: Tree<K, V>, walk: Seq<(K, V)>)
    requires
        total_order::<K>(),
        t.ordered(),
        all_within(walk, t),
    ensures
        t.entries_at(keys_of(walk)) == walk,
    decreases walk.len(),
{
    if walk.len() > 0 {
        let init = walk.drop_last();
        assert(all_within(init, t)) by {
            assert forall|i: int| 0 <= i < init.len() implies t.has_entry(#[trigger] init[i]) by {
                assert(init[i] == walk[i]);
            }
        }
        lemma_entries_at_walk(t, init);
        assert(keys_of(walk).drop_last() =~= keys_of(init));
        assert(t.has_entry(walk[walk.len() - 1]));
        lemma_entry_in_map(t, walk.last());
        assert(init.push(walk.last()) =~= walk);
    } else {
        assert(t.entries_at(keys_of(walk)) =~= walk);
    }
}

/// Where cloning is faithful, looking up a clone of each key of a walk over
/// a search tree finds the entries of the walk.
pub proof fn lemma_found_by_faithful_clones<K: PartialOrd + Clone, V>(
    t: Tree<K, V>,
    walk: Seq<(K, V)>,
    found: Seq<(K, V)>,
)
    requires
        total_order::<K>(),
        faithful_clone::<K>(),
        t.ordered(),
        all_within(walk, t),
        found_by_clones(t, walk, found),
    ensures
        found == walk,
{
    let keys = choose|keys: Seq<K>| #[trigger]
        clones_of(keys_of(walk), keys) && found == t.entries_at(keys);
    lemma_faithful_clones(keys_of(walk), keys);
    lemma_entries_at_walk(t, walk);
}

/// The walks in pre-order, in-order and post-order yield entries of the
/// tree, as many as the tree has forks.
pub proof fn lemma_walks_within<K, V>(t: Tree<K, V>)
    ensures
        all_within(t.pre_order(), t),
        all_within(t.in_order(), t),
        all_within(t.post_order(), t),
        t.pre_order().len() == t.size(),
        t.in_order().len() == t.size(),
        t.post_order().len() == t.size(),
    decreases t,
{
    if let Tree::Fork { left, key, value, right } = t {
        lemma_walks_within(*left);
        lemma_walks_within(*right);
        let pre = t.pre_order();
        assert forall|i: int| 0 <= i < pre.len() implies t.has_entry(#[trigger] pre[i]) by {
            if i == 0 {
            } else if i < 1 + left.pre_order().len() {
                assert(pre[i] == left.pre_order()[i - 1]);
            } else {
                assert(pre[i] == right.pre_order()[i - 1 - left.pre_order().len()]);
            }
        }
        let ino = t.in_order();
        assert forall|i: int| 0 <= i < ino.len() implies t.has_entry(#[trigger] ino[i]) by {
            if i < left.in_order().len() {
                assert(ino[i] == left.in_order()[i]);
            } else if i == left.in_order().len() {
            } else {
                assert(ino[i] == right.in_order()[i - 1 - left.in_order().len()]);
            }
        }
        let post = t.post_order();
        assert forall|i: int| 0 <= i < post.len() implies t.has_entry(#[trigger] post[i]) by {
            if i < left.post_order().len() {
                assert(post[i] == left.post_order()[i]);
            } else if i < left.post_order().len() + right.post_order().len() {
                assert(post[i] == right.post_order()[i - left.post_order().len()]);
            } else {
            }
        }
    }
}

/// The in-order walk of a search tree yields its entries by strictly
/// ascending key.
pub proof fn lemma_in_order_ascending<K: PartialOrd, V>(t: Tree<K, V>)
    requires
        total_order::<K>(),
        t.ordered(),
    ensures
        ascending(t.in_order()),
    decreases t,
{
    if let Tree::Fork { left, key, value, right } = t {
        lemma_in_order_ascending(*left);
        lemma_in_order_ascending(*right);
        lemma_walks_within(*left);
        lemma_walks_within(*right);
        let l = left.in_order();
        let r = right.in_order();
        let s = t.in_order();
        assert forall|i: int, j: int| 0 <= i < j < s.len() implies lt(
            (#[trigger] s[i]).0,
            (#[trigger] s[j]).0,
        ) by {
            if i < l.len() {
                assert(s[i] == l[i]);
                lemma_entry_in_map(*left, l[i]);
            }
            if i > l.len() {
                assert(s[i] == r[i - l.len() - 1]);
                lemma_entry_in_map(*right, r[i - l.len() - 1]);
            }
            if j < l.len() {
                assert(s[j] == l[j]);
                lemma_entry_in_map(*left, l[j]);
            }
            if j > l.len() {
                assert(s[j] == r[j - l.len() - 1]);
                lemma_entry_in_map(*right, r[j - l.len() - 1]);
            }
        }
    }
}

/// The in-order walk of a search tree yields every entry of its map.
pub proof fn lemma_in_order_holds_all<K: PartialOrd, V>(t: Tree<K, V>, key: K)
    requires
        total_order::<K>(),
        t.ordered(),
        t.contains(key),
    ensures
        t.in_order().contains((key, t.as_map()[key])),
    decreases t,
{
    if let Tree::Fork { left, key: k, value, right } = t {
        lemma_contains(t);
        let l = left.in_order();
        let r = right.in_order();
        let s = t.in_order();
        if key == k {
            assert(s[l.len() as int] == (k, value));
        } else if left.contains(key) {
            lemma_in_order_holds_all(*left, key);
            let i = choose|i: int| 0 <= i < l.len() && l[i] == (key, left.as_map()[key]);
            assert(s[i] == l[i]);
        } else {
            lemma_in_order_holds_all(*right, key);
            let i = choose|i: int| 0 <= i < r.len() && r[i] == (key, right.as_map()[key]);
            assert(s[l.len() + 1 + i] == r[i]);
        }
    }
}

/// `entry` stands at a fork of a tree of `forest`.
pub open spec fn forest_has_entry<K, V>(forest: Seq<Tree<K, V>>, entry: (K, V)) -> bool {
    exists|j: int| 0 <= j < forest.len() && #[trigger] forest[j].has_entry(entry)
}

/// Every element of `entries` stands at a fork of a tree of `forest`.
pub open spec fn all_within_forest<K, V>(entries: Seq<(K, V)>, forest: Seq<Tree<K, V>>) -> bool {
    forall|i: int| 0 <= i < entries.len() ==> forest_has_entry(forest, #[trigger] entries[i])
}

/// The roots of a forest are entries of its trees, and the entries of the
/// children of a forest are entries of its trees.
pub proof fn lemma_forest_within<K, V>(forest: Seq<Tree<K, V>>)
    ensures
        all_within_forest(roots(forest), forest),
        forall|e: (K, V)| #[trigger]
            forest_has_entry(children(forest), e) ==> forest_has_entry(forest, e),
    decreases forest.len(),
{
    if forest.len() > 0 {
        let init = forest.drop_last();
        let last = forest.last();
        lemma_forest_within(init);
        let rs = roots(forest);
        assert forall|i: int| 0 <= i < rs.len() implies forest_has_entry(
            forest,
            #[trigger] rs[i],
        ) by {
            if i < roots(init).len() {
                assert(rs[i] == roots(init)[i]);
                assert(forest_has_entry(init, roots(init)[i]));
                let j = choose|j: int| 0 <= j < init.len() && #[trigger] init[j].has_entry(rs[i]);
                assert(forest[j] == init[j]);
            } else {
                assert(rs[i] == last.root_entry()[i - roots(init).len()]);
                assert(forest[forest.len() - 1].has_entry(rs[i]));
            }
        }
        let cs = children(forest);
        assert forall|e: (K, V)| #[trigger] forest_has_entry(cs, e) implies forest_has_entry(
            forest,
            e,
        ) by {
            let j = choose|j: int| 0 <= j < cs.len() && #[trigger] cs[j].has_entry(e);
            if j < children(init).len() {
                assert(cs[j] == children(init)[j]);
                assert(forest_has_entry(children(init), e));
                let i = choose|i: int| 0 <= i < init.len() && #[trigger] init[i].has_entry(e);
                assert(forest[i] == init[i]);
            } else {
                assert(cs[j] == last.forks_below()[j - children(init).len()]);
                assert(forest[forest.len() - 1].has_entry(e));
            }
        }
    } else {
        assert forall|e: (K, V)| #[trigger] forest_has_entry(children(forest), e) implies false by {
        }
    }
}

/// The entries of the levels of a forest are entries of its trees.
pub proof fn lemma_levels_within<K, V>(forest: Seq<Tree<K, V>>, depth: nat)
    ensures
        all_within_forest(levels(forest, depth), forest),
    decreases depth,
{
    if depth > 0 {
        let below = levels(children(forest), (depth - 1) as nat);
        lemma_levels_within(children(forest), (depth - 1) as nat);
        lemma_forest_within(forest);
        let all = levels(forest, depth);
        assert forall|i: int| 0 <= i < all.len() implies forest_has_entry(
            forest,
            #[trigger] all[i],
        ) by {
            if i < roots(forest).len() {
                assert(all[i] == roots(forest)[i]);
            } else {
                let e = below[i - roots(forest).len()];
                assert(all[i] == e);
                assert(forest_has_entry(children(forest), e));
            }
        }
    }
}

/// The walk in level order yields entries of the tree.
pub proof fn lemma_level_order_within<K, V>(t: Tree<K, V>)
    ensures
        all_within(t.level_order(), t),
{
    lemma_levels_within(seq![t], t.height());
    let s = t.level_order();
    assert forall|i: int| 0 <= i < s.len() implies t.has_entry(#[trigger] s[i]) by {
        assert(forest_has_entry(seq![t], s[i]));
        let j = choose|j: int| 0 <= j < seq![t].len() && #[trigger] seq![t][j].has_entry(s[i]);
        assert(seq![t][j] == t);
    }
}

} // verus!
