//! A balanced tree is shallow: its height is logarithmic in the number of
//! its entries, so the height of any tree that fits into memory is far
//! below the limits of the machine integers that hold it.

use crate::tree::Tree;
use vstd::arithmetic::power2::{lemma2_to64, lemma_pow2_unfold, pow2};
use vstd::prelude::*;

verus! {

/// One more than the least number of entries of a balanced tree of height
/// `h`.
pub open spec fn sparsest(h: nat) -> nat
    decreases h,
{
    if h == 0 {
        1
    } else if h == 1 {
        2
    } else {
        sparsest((h - 1) as nat) + sparsest((h - 2) as nat)
    }
}

/// A balanced tree of height `h` has at least `sparsest(h) - 1` entries.
pub proof fn lemma_balanced_size<K, V>(t: Tree<K, V>)
    requires
        t.balanced(),
    ensures
        t.size() + 1 >= sparsest(t.height()),
    decreases t,
{
    if let Tree::Fork { left, right, .. } = t {
        lemma_balanced_size(*left);
        lemma_balanced_size(*right);
        let h = t.height();
        if h >= 2 {
            lemma_sparsest_monotone((h - 2) as nat, left.height());
            lemma_sparsest_monotone((h - 2) as nat, right.height());
        }
    }
}

/// `sparsest` never decreases.
pub proof fn lemma_sparsest_monotone(a: nat, b: nat)
    requires
        a <= b,
    ensures
        sparsest(a) <= sparsest(b),
    decreases b,
{
    if a < b {
        lemma_sparsest_monotone(a, (b - 1) as nat);
    }
}

/// `sparsest` at least doubles with every two steps.
pub proof fn lemma_sparsest_grows(k: nat)
    ensures
        sparsest(2 * k) >= pow2(k),
    decreases k,
{
    if k > 0 {
        lemma_pow2_unfold(k);
        lemma_sparsest_grows((k - 1) as nat);
        lemma_sparsest_monotone((2 * k - 2) as nat, (2 * k - 1) as nat);
    } else {
        lemma2_to64();
    }
}

/// The greatest height of a balanced tree whose entries can be counted in
/// a `usize`.
pub const MAX_HEIGHT: u32 = 129;

/// A balanced tree whose entries can be counted in a `usize` is no higher
/// than `MAX_HEIGHT`.
pub proof fn lemma_height_bound<K, V>(t: Tree<K, V>)
    requires
        t.balanced(),
        t.size() <= usize::MAX,
    ensures
        t.height() <= MAX_HEIGHT,
{
    if t.height() >= 130 {
        lemma_balanced_size(t);
        lemma_sparsest_monotone(130, t.height());
        lemma_sparsest_grows(65);
        lemma_pow2_unfold(65);
        lemma2_to64();
    }
}

} // verus!
