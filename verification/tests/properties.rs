use an_ok_avl_tree::AVLTree;
use std::collections::Bound;

fn keys_of_tree(tree: &AVLTree<u32, u32>) -> Vec<u32> {
    tree.inorder_iter().collect().into_iter().map(|(k, _)| *k).collect()
}

fn next_random(state: &mut u64) -> u32 {
    *state = state.wrapping_mul(6364136223846793005).wrapping_add(1442695040888963407);
    (*state >> 33) as u32
}

#[test]
fn empty_tree_is_empty_and_not_avl() {
    let tree: AVLTree<i32, char> = AVLTree::new();
    assert!(tree.is_empty());
    assert!(!tree.is_avl_tree());
    assert_eq!(tree.min_pair(), None);
    assert_eq!(tree.max_pair(), None);
    assert_eq!(tree.get(&1), None);
    assert_eq!(tree.get_pair(&1), None);
    assert!(!tree.contains(&1));
    assert_eq!(tree.successor(&1), None);
    assert_eq!(tree.predecessor(&1), None);
    assert_eq!(tree.to_string(), "None");
}

#[test]
fn default_is_the_empty_tree() {
    let tree: AVLTree<i32, char> = AVLTree::default();
    assert!(tree.is_empty());
    assert!(!tree.is_avl_tree());
}

#[test]
fn single_entry_is_avl() {
    let mut tree = AVLTree::new();
    tree.insert(1, 'a');
    assert!(!tree.is_empty());
    assert!(tree.is_avl_tree());
    assert_eq!(tree.min_pair(), Some((&1, &'a')));
    assert_eq!(tree.max_pair(), Some((&1, &'a')));
}

#[test]
fn single_entry_renders() {
    let mut tree = AVLTree::new();
    tree.insert(1, 'a');
    assert_eq!(tree.to_string(), "[K: 1, V: a, L: Ø, R: Ø]");
}

#[test]
fn balance_holds_after_every_update() {
    let mut tree: AVLTree<u32, u32> = AVLTree::new();
    let mut state: u64 = 7;
    for _ in 0..2000 {
        let key = next_random(&mut state) % 200;
        if next_random(&mut state) % 3 == 0 {
            tree.delete(key);
        } else {
            tree.insert(key, key + 1);
        }
        assert_eq!(tree.is_avl_tree(), !tree.is_empty());
    }
}

#[test]
fn balance_holds_for_ascending_and_descending_keys() {
    let mut up: AVLTree<u32, u32> = AVLTree::new();
    let mut down: AVLTree<u32, u32> = AVLTree::new();
    for i in 0..1000 {
        up.insert(i, i);
        down.insert(1000 - i, i);
        assert!(up.is_avl_tree());
        assert!(down.is_avl_tree());
    }
    assert_eq!(keys_of_tree(&up), (0..1000).collect::<Vec<u32>>());
    assert_eq!(keys_of_tree(&down), (1..=1000).collect::<Vec<u32>>());
    for i in 0..1000 {
        up.delete(i);
        assert_eq!(up.is_avl_tree(), !up.is_empty());
    }
    assert!(up.is_empty());
}

#[test]
fn in_order_is_strictly_ascending() {
    let mut tree: AVLTree<u32, u32> = AVLTree::new();
    let mut state: u64 = 99;
    for _ in 0..1000 {
        let key = next_random(&mut state) % 500;
        if next_random(&mut state) % 4 == 0 {
            tree.delete(key);
        } else {
            tree.insert(key, 0);
        }
    }
    let keys = keys_of_tree(&tree);
    assert!(!keys.is_empty());
    for pair in keys.windows(2) {
        assert!(pair[0] < pair[1]);
    }
}

#[test]
fn insert_then_get_then_delete() {
    let mut tree: AVLTree<u32, u32> = AVLTree::new();
    let mut state: u64 = 3;
    for _ in 0..300 {
        let key = next_random(&mut state) % 100;
        let value = next_random(&mut state);
        tree.insert(key, value);
        assert_eq!(tree.get(&key), Some(&value));
        assert_eq!(tree.get_pair(&key), Some((&key, &value)));
        assert!(tree.contains(&key));
    }
    for key in 0..100 {
        tree.delete(key);
        assert!(!tree.contains(&key));
        assert_eq!(tree.get(&key), None);
    }
    assert!(tree.is_empty());
}

#[test]
fn deleting_an_absent_key_changes_nothing() {
    let mut tree = AVLTree::new();
    for key in [5, 3, 8, 1, 4, 7, 9, 2, 6] {
        tree.insert(key, key * 10);
    }
    let before: Vec<(i32, i32)> =
        tree.inorder_iter().collect().into_iter().map(|(k, v)| (*k, *v)).collect();
    let shape_before: Vec<i32> =
        tree.preorder_iter().collect().into_iter().map(|(k, _)| *k).collect();
    tree.delete(0);
    tree.delete(10);
    tree.delete(100);
    let after: Vec<(i32, i32)> =
        tree.inorder_iter().collect().into_iter().map(|(k, v)| (*k, *v)).collect();
    let shape_after: Vec<i32> =
        tree.preorder_iter().collect().into_iter().map(|(k, _)| *k).collect();
    assert_eq!(before, after);
    assert_eq!(shape_before, shape_after);
}

#[test]
fn deleting_from_the_empty_tree_is_silent() {
    let mut tree: AVLTree<i32, char> = AVLTree::new();
    tree.delete(1);
    assert!(tree.is_empty());
}

#[test]
fn overwriting_keeps_the_shape() {
    let mut tree = AVLTree::new();
    for key in 1..=10 {
        tree.insert(key, 'x');
    }
    let shape_before: Vec<i32> =
        tree.preorder_iter().collect().into_iter().map(|(k, _)| *k).collect();
    let levels_before: Vec<i32> =
        tree.levelorder_iter().collect().into_iter().map(|(k, _)| *k).collect();
    for key in 1..=10 {
        tree.insert(key, 'y');
        assert_eq!(tree.get(&key), Some(&'y'));
    }
    let shape_after: Vec<i32> =
        tree.preorder_iter().collect().into_iter().map(|(k, _)| *k).collect();
    let levels_after: Vec<i32> =
        tree.levelorder_iter().collect().into_iter().map(|(k, _)| *k).collect();
    assert_eq!(shape_before, shape_after);
    assert_eq!(levels_before, levels_after);
    assert_eq!(tree.inorder_iter().collect().len(), 10);
}

#[test]
fn successor_and_predecessor_of_one_to_ten() {
    let mut tree = AVLTree::new();
    for (key, value) in (1..=10).zip('a'..='j') {
        tree.insert(key, value);
    }
    assert_eq!(tree.successor(&4), Some((&5, &'e')));
    assert_eq!(tree.successor(&0), Some((&1, &'a')));
    assert_eq!(tree.successor(&10), None);
    assert_eq!(tree.predecessor(&1), None);
    assert_eq!(tree.predecessor(&11), Some((&10, &'j')));
    assert_eq!(tree.predecessor(&5), Some((&4, &'d')));
    for key in 1..10 {
        assert_eq!(tree.successor(&key).map(|(k, _)| *k), Some(key + 1));
        assert_eq!(tree.predecessor(&(key + 1)).map(|(k, _)| *k), Some(key));
    }
}

#[test]
fn successor_of_keys_between_entries() {
    let mut tree = AVLTree::new();
    for key in [10, 20, 30, 40, 50, 60, 70] {
        tree.insert(key, ());
    }
    assert_eq!(tree.successor(&15), Some((&20, &())));
    assert_eq!(tree.successor(&45), Some((&50, &())));
    assert_eq!(tree.successor(&69), Some((&70, &())));
    assert_eq!(tree.successor(&70), None);
    assert_eq!(tree.predecessor(&15), Some((&10, &())));
    assert_eq!(tree.predecessor(&45), Some((&40, &())));
    assert_eq!(tree.predecessor(&11), Some((&10, &())));
    assert_eq!(tree.predecessor(&10), None);
}

#[test]
fn range_bounds_of_one_to_four() {
    let mut tree = AVLTree::new();
    for (key, value) in (1..=4).zip('a'..='d') {
        tree.insert(key, value);
    }
    let all = tree.range_pair_iter(Bound::Included(1), Bound::Included(4)).collect();
    assert_eq!(all, vec![(&1, &'a'), (&2, &'b'), (&3, &'c'), (&4, &'d')]);
    let inner = tree.range_pair_iter(Bound::Excluded(1), Bound::Excluded(5)).collect();
    assert_eq!(inner, vec![(&2, &'b'), (&3, &'c'), (&4, &'d')]);
    let mixed = tree.range_pair_iter(Bound::Excluded(1), Bound::Included(3)).collect();
    assert_eq!(mixed, vec![(&2, &'b'), (&3, &'c')]);
    let open_end = tree.range_pair_iter(Bound::Included(3), Bound::Unbounded).collect();
    assert_eq!(open_end, vec![(&3, &'c'), (&4, &'d')]);
    let open_start = tree.range_pair_iter(Bound::Unbounded, Bound::Excluded(3)).collect();
    assert_eq!(open_start, vec![(&1, &'a'), (&2, &'b')]);
}

#[test]
fn range_that_holds_nothing() {
    let mut tree = AVLTree::new();
    for key in 1..=4 {
        tree.insert(key, key);
    }
    assert!(tree.range_pair_iter(Bound::Included(5), Bound::Unbounded).collect().is_empty());
    assert!(tree.range_pair_iter(Bound::Unbounded, Bound::Excluded(1)).collect().is_empty());
    assert!(tree.range_pair_iter(Bound::Included(3), Bound::Included(2)).collect().is_empty());
    assert!(tree.range_pair_iter(Bound::Excluded(2), Bound::Excluded(3)).collect().is_empty());
    assert!(tree.range_pair_iter(Bound::Excluded(4), Bound::Included(4)).collect().is_empty());
    let empty: AVLTree<i32, i32> = AVLTree::new();
    assert!(empty.range_pair_iter(Bound::Unbounded, Bound::Unbounded).collect().is_empty());
}

#[test]
fn range_iterator_stays_exhausted() {
    let mut tree = AVLTree::new();
    for key in 1..=5 {
        tree.insert(key, key * 2);
    }
    let mut iter = tree.range_pair_iter(Bound::Included(2), Bound::Included(3));
    assert_eq!(iter.next(), Some((&2, &4)));
    assert_eq!(iter.next(), Some((&3, &6)));
    assert_eq!(iter.next(), None);
    assert_eq!(iter.next(), None);
    assert_eq!(iter.next(), None);
    let mut none = tree.range_pair_iter(Bound::Included(9), Bound::Unbounded);
    assert_eq!(none.next(), None);
    assert_eq!(none.next(), None);
    let mut above = tree.range_pair_iter(Bound::Included(4), Bound::Excluded(4));
    assert_eq!(above.next(), None);
    assert_eq!(above.next(), None);
}

#[test]
fn range_agrees_with_a_filter_of_in_order() {
    let mut tree: AVLTree<u32, u32> = AVLTree::new();
    let mut state: u64 = 11;
    for _ in 0..60 {
        let key = next_random(&mut state) % 40;
        tree.insert(key, key);
    }
    let keys = keys_of_tree(&tree);
    for lo in 0..42u32 {
        for hi in 0..42u32 {
            let got: Vec<u32> = tree
                .range_pair_iter(Bound::Included(lo), Bound::Excluded(hi))
                .collect()
                .into_iter()
                .map(|(k, _)| *k)
                .collect();
            let want: Vec<u32> = keys.iter().copied().filter(|k| lo <= *k && *k < hi).collect();
            assert_eq!(got, want);
            let got: Vec<u32> = tree
                .range_pair_iter(Bound::Excluded(lo), Bound::Included(hi))
                .collect()
                .into_iter()
                .map(|(k, _)| *k)
                .collect();
            let want: Vec<u32> = keys.iter().copied().filter(|k| lo < *k && *k <= hi).collect();
            assert_eq!(got, want);
        }
    }
}

#[test]
fn traverse_iterator_stays_exhausted() {
    let mut tree = AVLTree::new();
    tree.insert(2, 'b');
    tree.insert(1, 'a');
    let mut iter = tree.inorder_iter();
    assert_eq!(iter.next(), Some((&1, &'a')));
    assert_eq!(iter.next(), Some((&2, &'b')));
    assert_eq!(iter.next(), None);
    assert_eq!(iter.next(), None);
    let empty: AVLTree<i32, char> = AVLTree::new();
    assert_eq!(empty.preorder_iter().next(), None);
    assert!(empty.inorder_iter().collect().is_empty());
    assert!(empty.postorder_iter().collect().is_empty());
    assert!(empty.levelorder_iter().collect().is_empty());
}

#[test]
fn get_or_falls_back_on_the_default() {
    let mut tree = AVLTree::new();
    tree.insert(1, 'a');
    assert_eq!(tree.get_or(&1, &'z'), &'a');
    assert_eq!(tree.get_or(&2, &'z'), &'z');
}

#[test]
fn left_left_case_rotates_right() {
    let mut tree = AVLTree::new();
    tree.insert(3, ());
    tree.insert(2, ());
    tree.insert(1, ());
    let shape: Vec<i32> = tree.preorder_iter().collect().into_iter().map(|(k, _)| *k).collect();
    assert_eq!(shape, vec![2, 1, 3]);
}

#[test]
fn right_right_case_rotates_left() {
    let mut tree = AVLTree::new();
    tree.insert(1, ());
    tree.insert(2, ());
    tree.insert(3, ());
    let shape: Vec<i32> = tree.preorder_iter().collect().into_iter().map(|(k, _)| *k).collect();
    assert_eq!(shape, vec![2, 1, 3]);
}

#[test]
fn left_right_case_rotates_twice() {
    let mut tree = AVLTree::new();
    tree.insert(3, ());
    tree.insert(1, ());
    tree.insert(2, ());
    let shape: Vec<i32> = tree.preorder_iter().collect().into_iter().map(|(k, _)| *k).collect();
    assert_eq!(shape, vec![2, 1, 3]);
}

#[test]
fn right_left_case_rotates_twice() {
    let mut tree = AVLTree::new();
    tree.insert(1, ());
    tree.insert(3, ());
    tree.insert(2, ());
    let shape: Vec<i32> = tree.preorder_iter().collect().into_iter().map(|(k, _)| *k).collect();
    assert_eq!(shape, vec![2, 1, 3]);
}

#[test]
fn deleting_a_node_with_two_children_moves_up_the_next_key() {
    let mut tree = AVLTree::new();
    for key in [4, 2, 6, 1, 3, 5, 7] {
        tree.insert(key, ());
    }
    tree.delete(4);
    let shape: Vec<i32> = tree.preorder_iter().collect().into_iter().map(|(k, _)| *k).collect();
    assert_eq!(shape, vec![5, 2, 1, 3, 6, 7]);
    assert!(tree.is_avl_tree());
    tree.delete(5);
    let shape: Vec<i32> = tree.preorder_iter().collect().into_iter().map(|(k, _)| *k).collect();
    assert_eq!(shape, vec![6, 2, 1, 3, 7]);
    tree.delete(7);
    let shape: Vec<i32> = tree.preorder_iter().collect().into_iter().map(|(k, _)| *k).collect();
    assert_eq!(shape, vec![2, 1, 6, 3]);
    assert!(tree.is_avl_tree());
}

#[test]
fn deleting_a_node_with_one_child_moves_up_the_child() {
    let mut tree = AVLTree::new();
    for key in [2, 1, 3, 4] {
        tree.insert(key, ());
    }
    tree.delete(3);
    let shape: Vec<i32> = tree.preorder_iter().collect().into_iter().map(|(k, _)| *k).collect();
    assert_eq!(shape, vec![2, 1, 4]);
    tree.delete(1);
    tree.delete(4);
    let shape: Vec<i32> = tree.preorder_iter().collect().into_iter().map(|(k, _)| *k).collect();
    assert_eq!(shape, vec![2]);
    tree.delete(2);
    assert!(tree.is_empty());
}

#[test]
fn the_four_walks_of_seven_keys() {
    let mut tree = AVLTree::new();
    for key in [4, 2, 6, 1, 3, 5, 7] {
        tree.insert(key, key * key);
    }
    let keys = |pairs: Vec<(&i32, &i32)>| -> Vec<i32> { pairs.into_iter().map(|(k, _)| *k).collect() };
    assert_eq!(keys(tree.preorder_iter().collect()), vec![4, 2, 1, 3, 6, 5, 7]);
    assert_eq!(keys(tree.inorder_iter().collect()), vec![1, 2, 3, 4, 5, 6, 7]);
    assert_eq!(keys(tree.postorder_iter().collect()), vec![1, 3, 2, 5, 7, 6, 4]);
    assert_eq!(keys(tree.levelorder_iter().collect()), vec![4, 2, 6, 1, 3, 5, 7]);
    let values: Vec<i32> = tree.inorder_iter().collect().into_iter().map(|(_, v)| *v).collect();
    assert_eq!(values, vec![1, 4, 9, 16, 25, 36, 49]);
}

#[test]
fn level_order_of_an_uneven_tree() {
    let mut tree = AVLTree::new();
    for key in [5, 3, 8, 2, 4, 9, 1] {
        tree.insert(key, ());
    }
    let levels: Vec<i32> = tree.levelorder_iter().collect().into_iter().map(|(k, _)| *k).collect();
    assert_eq!(levels, vec![5, 3, 8, 2, 4, 9, 1]);
}
