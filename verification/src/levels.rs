//! Level order: the entries of a tree level by level from the root
//! downwards, each level from left to right.

use crate::tree::Tree;
use vstd::prelude::*;

verus! {

impl<K, V> Tree<K, V> {
    /// The non-empty subtrees directly below the root, the left one first.
    pub open spec fn forks_below(self) -> Seq<Tree<K, V>> {
        match self {
            Tree::Empty => Seq::empty(),
            Tree::Fork { left, right, .. } => {
                let l = if *left is Empty {
                    Seq::empty()
                } else {
                    seq![*left]
                };
                if *right is Empty {
                    l
                } else {
                    l.push(*right)
                }
            },
        }
    }

    /// The root entry, as a sequence of at most one entry.
    pub open spec fn root_entry(self) -> Seq<(K, V)> {
        match self {
            Tree::Empty => Seq::empty(),
            Tree::Fork { key, value, .. } => seq![(key, value)],
        }
    }

    /// The entries level by level from the root downwards, each level from
    /// left to right.
    pub open spec fn level_order(self) -> Seq<(K, V)> {
        levels(seq![self], self.height())
    }

    /// The entries that stand `depth` forks below the root, from left to
    /// right.
    pub open spec fn at_depth(self, depth: nat) -> Seq<(K, V)>
        decreases self,
    {
        match self {
            Tree::Empty => Seq::empty(),
            Tree::Fork { left, key, value, right } => if depth == 0 {
                seq![(key, value)]
            } else {
                left.at_depth((depth - 1) as nat) + right.at_depth((depth - 1) as nat)
            },
        }
    }

    /// The entries that stand less than `count` forks below the root, by
    /// ascending depth.
    pub open spec fn above_depth(self, count: nat) -> Seq<(K, V)>
        decreases count,
    {
        if count == 0 {
            Seq::empty()
        } else {
            self.above_depth((count - 1) as nat) + self.at_depth((count - 1) as nat)
        }
    }
}

/// The root entries of the trees of a forest, in the order of the trees.
pub open spec fn roots<K, V>(forest: Seq<Tree<K, V>>) -> Seq<(K, V)>
    decreases forest.len(),
{
    if forest.len() == 0 {
        Seq::empty()
    } else {
        roots(forest.drop_last()) + forest.last().root_entry()
    }
}

/// The non-empty subtrees directly below the roots of the trees of a
/// forest, in the order of the trees.
pub open spec fn children<K, V>(forest: Seq<Tree<K, V>>) -> Seq<Tree<K, V>>
    decreases forest.len(),
{
    if forest.len() == 0 {
        Seq::empty()
    } else {
        children(forest.drop_last()) + forest.last().forks_below()
    }
}

/// The entries of the topmost `depth` levels of a forest, level by level.
pub open spec fn levels<K, V>(forest: Seq<Tree<K, V>>, depth: nat) -> Seq<(K, V)>
    decreases depth,
{
    if depth == 0 {
        Seq::empty()
    } else {
        roots(forest) + levels(children(forest), (depth - 1) as nat)
    }
}

/// The roots of two forests in a row are the roots of the first followed
/// by those of the second, and likewise their children.
pub proof fn lemma_forests_in_a_row<K, V>(a: Seq<Tree<K, V>>, b: Seq<Tree<K, V>>)
    ensures
        roots(a + b) == roots(a) + roots(b),
        children(a + b) == children(a) + children(b),
    decreases b.len(),
{
    if b.len() == 0 {
        assert(a + b =~= a);
        assert(roots(a) + roots(b) =~= roots(a));
        assert(children(a) + children(b) =~= children(a));
    } else {
        lemma_forests_in_a_row(a, b.drop_last());
        assert((a + b).drop_last() =~= a + b.drop_last());
        assert(roots(a + b) =~= roots(a) + roots(b));
        assert(children(a + b) =~= children(a) + children(b));
    }
}

/// A forest of one tree has that tree's root entry and subtrees.
pub proof fn lemma_forest_of_one<K, V>(t: Tree<K, V>)
    ensures
        roots(seq![t]) == t.root_entry(),
        children(seq![t]) == t.forks_below(),
{
    let f = seq![t];
    assert(f.drop_last() =~= Seq::empty());
    assert(roots(f.drop_last()) =~= Seq::empty());
    assert(children(f.drop_last()) =~= Seq::empty());
    assert(roots(f) =~= t.root_entry());
    assert(children(f) =~= t.forks_below());
}

/// The empty forest has no entries on any level.
pub proof fn lemma_levels_of_none<K, V>(depth: nat)
    ensures
        levels(Seq::<Tree<K, V>>::empty(), depth) == Seq::<(K, V)>::empty(),
    decreases depth,
{
    if depth > 0 {
        lemma_levels_of_none::<K, V>((depth - 1) as nat);
        assert(children(Seq::<Tree<K, V>>::empty()) =~= Seq::empty());
        assert(levels(Seq::<Tree<K, V>>::empty(), depth) =~= Seq::<(K, V)>::empty());
    }
}

/// The entries that stand `depth` forks below the roots of the trees of a
/// forest, in the order of the trees.
pub open spec fn forest_at_depth<K, V>(forest: Seq<Tree<K, V>>, depth: nat) -> Seq<(K, V)>
    decreases forest.len(),
{
    if forest.len() == 0 {
        Seq::empty()
    } else {
        forest_at_depth(forest.drop_last(), depth) + forest.last().at_depth(depth)
    }
}

/// The entries that stand less than `count` forks below the roots of the
/// trees of a forest, by ascending depth.
pub open spec fn forest_above_depth<K, V>(forest: Seq<Tree<K, V>>, count: nat) -> Seq<(K, V)>
    decreases count,
{
    if count == 0 {
        Seq::empty()
    } else {
        forest_above_depth(forest, (count - 1) as nat) + forest_at_depth(
            forest,
            (count - 1) as nat,
        )
    }
}

/// The entries at a depth of two forests in a row are those of the first
/// followed by those of the second.
pub proof fn lemma_at_depth_in_a_row<K, V>(a: Seq<Tree<K, V>>, b: Seq<Tree<K, V>>, depth: nat)
    ensures
        forest_at_depth(a + b, depth) == forest_at_depth(a, depth) + forest_at_depth(b, depth),
    decreases b.len(),
{
    if b.len() == 0 {
        assert(a + b =~= a);
        assert(forest_at_depth(a, depth) + forest_at_depth(b, depth) =~= forest_at_depth(
            a,
            depth,
        ));
    } else {
        lemma_at_depth_in_a_row(a, b.drop_last(), depth);
        assert((a + b).drop_last() =~= a + b.drop_last());
        assert(forest_at_depth(a + b, depth) =~= forest_at_depth(a, depth) + forest_at_depth(
            b,
            depth,
        ));
    }
}

/// The entries at a depth of a forest of one tree are those of the tree.
pub proof fn lemma_at_depth_of_one<K, V>(t: Tree<K, V>, depth: nat)
    ensures
        forest_at_depth(seq![t], depth) == t.at_depth(depth),
{
    let f = seq![t];
    assert(f.drop_last() =~= Seq::empty());
    assert(forest_at_depth(f.drop_last(), depth) =~= Seq::empty());
    assert(forest_at_depth(f, depth) =~= t.at_depth(depth));
}

/// The roots of a forest are its entries at depth 0, and the entries at a
/// depth of its children are its own entries one fork deeper.
pub proof fn lemma_children_at_depth<K, V>(forest: Seq<Tree<K, V>>, depth: nat)
    ensures
        forest_at_depth(forest, 0) == roots(forest),
        forest_at_depth(children(forest), depth) == forest_at_depth(forest, depth + 1),
    decreases forest.len(),
{
    if forest.len() == 0 {
        assert(children(forest) =~= Seq::empty());
    } else {
        let init = forest.drop_last();
        let last = forest.last();
        lemma_children_at_depth(init, depth);
        lemma_at_depth_in_a_row(children(init), last.forks_below(), depth);
        assert(forest_at_depth(last.forks_below(), depth) == last.at_depth(depth + 1)) by {
            match last {
                Tree::Empty => {},
                Tree::Fork { left, right, .. } => {
                    let l = if *left is Empty {
                        Seq::<Tree<K, V>>::empty()
                    } else {
                        seq![*left]
                    };
                    let r = if *right is Empty {
                        Seq::<Tree<K, V>>::empty()
                    } else {
                        seq![*right]
                    };
                    assert(last.forks_below() =~= l + r);
                    lemma_at_depth_in_a_row(l, r, depth);
                    lemma_at_depth_of_one(*left, depth);
                    lemma_at_depth_of_one(*right, depth);
                    assert(forest_at_depth(l, depth) =~= left.at_depth(depth));
                    assert(forest_at_depth(r, depth) =~= right.at_depth(depth));
                },
            }
        }
    }
}

/// The roots of a forest followed by the topmost levels of its children
/// are its own topmost levels, one more of them.
pub proof fn lemma_children_above_depth<K, V>(forest: Seq<Tree<K, V>>, count: nat)
    ensures
        roots(forest) + forest_above_depth(children(forest), count) == forest_above_depth(
            forest,
            count + 1,
        ),
    decreases count,
{
    lemma_children_at_depth(forest, 0);
    if count == 0 {
        assert(forest_above_depth(forest, 0) =~= Seq::empty());
        assert(roots(forest) + forest_above_depth(children(forest), 0) =~= forest_above_depth(
            forest,
            1,
        ));
    } else {
        let m = (count - 1) as nat;
        lemma_children_above_depth(forest, m);
        lemma_children_at_depth(forest, m);
        assert(roots(forest) + forest_above_depth(children(forest), count) =~= (roots(forest)
            + forest_above_depth(children(forest), m)) + forest_at_depth(children(forest), m));
    }
}

/// The levels of a forest are its entries by ascending depth.
pub proof fn lemma_levels_by_depth<K, V>(forest: Seq<Tree<K, V>>, count: nat)
    ensures
        levels(forest, count) == forest_above_depth(forest, count),
    decreases count,
{
    if count > 0 {
        lemma_levels_by_depth(children(forest), (count - 1) as nat);
        lemma_children_above_depth(forest, (count - 1) as nat);
    }
}

/// The topmost levels of a forest of one tree are those of the tree.
pub proof fn lemma_above_depth_of_one<K, V>(t: Tree<K, V>, count: nat)
    ensures
        forest_above_depth(seq![t], count) == t.above_depth(count),
    decreases count,
{
    if count > 0 {
        lemma_above_depth_of_one(t, (count - 1) as nat);
        lemma_at_depth_of_one(t, (count - 1) as nat);
    }
}

} // verus!
