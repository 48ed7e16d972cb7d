use an_ok_avl_tree::iterator::TraverseIter;
use an_ok_avl_tree::node::to_string;
use an_ok_avl_tree::render::{write_empty, write_fork};
use an_ok_avl_tree::{Link, Node};
use std::collections::VecDeque;

fn link_of(keys: &[i32]) -> Link<i32, char> {
    let mut link: Link<i32, char> = None;
    for key in keys {
        let value = (b'a' + (*key as u8) - 1) as char;
        link = Some(match link {
            None => Box::new(Node::new(*key, value)),
            Some(node) => node.insert(*key, value),
        });
    }
    link
}

#[test]
fn new_node_is_a_leaf() {
    let node = Node::new(1, 'a');
    assert_eq!(node.search(&1), Some(&'a'));
    assert_eq!(node.search_pair(&1), Some((&1, &'a')));
    assert_eq!(node.search(&2), None);
    assert_eq!(node.min_pair(), (&1, &'a'));
    assert_eq!(node.max_pair(), (&1, &'a'));
    assert_eq!(node.successor(&1), None);
    assert_eq!(node.predecessor(&1), None);
    assert_eq!(node.successor(&0), Some((&1, &'a')));
    assert_eq!(node.predecessor(&2), Some((&1, &'a')));
    assert_eq!(node.to_string(), "[K: 1, V: a, L: Ø, R: Ø]");
    assert!(Node::is_avl_tree(&Some(Box::new(node))));
}

#[test]
fn empty_link_passes_the_probe() {
    let link: Link<i32, char> = None;
    assert!(Node::is_avl_tree(&link));
    assert_eq!(to_string(&link), "Ø");
}

#[test]
fn node_insert_returns_the_new_root() {
    let link = link_of(&[1, 2, 3]);
    let mut buf = Vec::new();
    Node::prev_order(&link, &mut buf);
    assert_eq!(buf, vec![2, 1, 3]);
    assert!(Node::is_avl_tree(&link));
    let root = link.unwrap();
    assert_eq!(root.min_pair(), (&1, &'a'));
    assert_eq!(root.max_pair(), (&3, &'c'));
    assert_eq!(root.search(&2), Some(&'b'));
}

#[test]
fn node_insert_overwrites_in_place() {
    let root = link_of(&[2, 1, 3]).unwrap();
    let root = root.insert(1, 'z');
    assert_eq!(root.search(&1), Some(&'z'));
    let mut buf = Vec::new();
    Node::prev_order(&Some(root), &mut buf);
    assert_eq!(buf, vec![2, 1, 3]);
}

#[test]
fn node_delete_returns_what_is_left() {
    let root = link_of(&[2, 1, 3]).unwrap();
    let rest = root.delete(2);
    let mut buf = Vec::new();
    Node::prev_order(&rest, &mut buf);
    assert_eq!(buf, vec![3, 1]);
    let rest = rest.unwrap().delete(7);
    let mut buf = Vec::new();
    Node::in_order(&rest, &mut buf);
    assert_eq!(buf, vec![1, 3]);
    let rest = rest.unwrap().delete(1);
    let rest = rest.unwrap().delete(3);
    assert!(rest.is_none());
}

#[test]
fn walks_append_to_the_buffer() {
    let link = link_of(&[4, 2, 6, 1, 3, 5, 7]);
    let mut buf = vec![100, 200];
    Node::prev_order(&link, &mut buf);
    assert_eq!(buf, vec![100, 200, 4, 2, 1, 3, 6, 5, 7]);
    let mut buf = vec![100];
    Node::in_order(&link, &mut buf);
    assert_eq!(buf, vec![100, 1, 2, 3, 4, 5, 6, 7]);
    let mut buf = vec![100];
    Node::post_order(&link, &mut buf);
    assert_eq!(buf, vec![100, 1, 3, 2, 5, 7, 6, 4]);
    let mut buf = vec![100];
    Node::level_order(&link, &mut buf);
    assert_eq!(buf, vec![100, 4, 2, 6, 1, 3, 5, 7]);
}

#[test]
fn walks_of_the_empty_link_append_nothing() {
    let link: Link<i32, char> = None;
    let mut buf = vec![1];
    Node::prev_order(&link, &mut buf);
    Node::in_order(&link, &mut buf);
    Node::post_order(&link, &mut buf);
    Node::level_order(&link, &mut buf);
    assert_eq!(buf, vec![1]);
}

#[test]
fn node_successor_and_predecessor() {
    let root = link_of(&[4, 2, 6, 1, 3, 5, 7]).unwrap();
    assert_eq!(root.successor(&4), Some((&5, &'e')));
    assert_eq!(root.successor(&3), Some((&4, &'d')));
    assert_eq!(root.successor(&7), None);
    assert_eq!(root.predecessor(&4), Some((&3, &'c')));
    assert_eq!(root.predecessor(&5), Some((&4, &'d')));
    assert_eq!(root.predecessor(&1), None);
}

#[test]
fn fork_text_is_put_together_in_order() {
    assert_eq!(write_fork("1", "a", "Ø", "Ø"), "[K: 1, V: a, L: Ø, R: Ø]");
    assert_eq!(write_fork("k", "v", "l", "r"), "[K: k, V: v, L: l, R: r]");
    assert_eq!(write_fork("", "", "", ""), "[K: , V: , L: , R: ]");
    assert_eq!(write_empty(), "Ø");
}

#[test]
fn node_text_nests_the_children() {
    let root = link_of(&[2, 1]).unwrap();
    assert_eq!(root.to_string(), "[K: 2, V: b, L: [K: 1, V: a, L: Ø, R: Ø], R: Ø]");
}

#[test]
fn traverse_iter_hands_out_its_queue_from_the_front() {
    let (k1, v1, k2, v2) = (1, 'a', 2, 'b');
    let mut queue = VecDeque::new();
    queue.push_back((&k2, &v2));
    queue.push_back((&k1, &v1));
    let mut iter: TraverseIter<i32, char> = TraverseIter::new(queue);
    assert_eq!(iter.next(), Some((&2, &'b')));
    assert_eq!(iter.next(), Some((&1, &'a')));
    assert_eq!(iter.next(), None);
    let iter: TraverseIter<i32, char> = TraverseIter::new(VecDeque::new());
    assert!(iter.collect().is_empty());
}
