use aisd_tree::experiment::Stats;
use aisd_tree::splay_tree::tree_node::{join, splay, SplayNode};
use aisd_tree::splay_tree::SplayTree;

fn build(keys: &[usize]) -> SplayTree {
    let mut tree = SplayTree::new();
    let mut stats = Stats::new();
    for &k in keys {
        tree.insert(k, &mut stats);
    }
    tree
}

fn node(value: usize, left: Option<SplayNode>, right: Option<SplayNode>) -> SplayNode {
    SplayNode { value, left: left.map(Box::new), right: right.map(Box::new) }
}

fn leaf(value: usize) -> SplayNode {
    SplayNode::new(value)
}

fn keys_of(node: &SplayNode, out: &mut Vec<usize>) {
    node.collect(out);
}

#[test]
fn empty_splay_tree_has_no_height_and_no_keys() {
    let tree = SplayTree::new();
    assert_eq!(tree.height(), 0);
    assert!(tree.in_order().is_empty());
    assert!(tree.root().is_none());
    assert_eq!(tree.render(), "Empty tree");
    let other = SplayTree::default();
    assert!(other.root().is_none());
}

#[test]
fn inserted_key_is_at_the_root_and_stays_there_when_looked_up() {
    let mut tree = SplayTree::new();
    let mut stats = Stats::new();
    for &k in &[50usize, 20, 70, 10, 30, 60, 90, 30, 5] {
        tree.insert(k, &mut stats);
        assert_eq!(tree.root().unwrap().value, k);
        assert!(tree.search(k, &mut stats));
        assert_eq!(tree.root().unwrap().value, k);
    }
    assert_eq!(tree.in_order(), vec![5, 10, 20, 30, 30, 50, 60, 70, 90]);
}

#[test]
fn search_moves_a_held_key_to_the_root() {
    let mut tree = build(&[50, 20, 70, 10, 30, 60, 90]);
    let mut stats = Stats::new();
    for &k in &[10usize, 90, 50, 30, 60, 20, 70] {
        assert!(tree.search(k, &mut stats));
        assert_eq!(tree.root().unwrap().value, k);
        assert_eq!(tree.in_order(), vec![10, 20, 30, 50, 60, 70, 90]);
    }
}

#[test]
fn search_for_an_absent_key_brings_a_neighbour_to_the_root() {
    let mut tree = build(&[50, 20, 70, 10, 30, 60, 90]);
    let mut stats = Stats::new();
    assert!(!tree.search(55, &mut stats));
    let top = tree.root().unwrap().value;
    assert!(top == 50 || top == 60);
    assert_eq!(tree.in_order(), vec![10, 20, 30, 50, 60, 70, 90]);
    assert!(!tree.search(0, &mut stats));
    assert_eq!(tree.root().unwrap().value, 10);
    assert!(!tree.search(1000, &mut stats));
    assert_eq!(tree.root().unwrap().value, 90);
    let mut empty = SplayTree::new();
    assert!(!empty.search(1, &mut stats));
}

#[test]
fn zig_zig_rotates_twice_to_the_right() {
    let tree = node(30, Some(node(20, Some(leaf(10)), None)), None);
    let mut stats = Stats::new();
    let top = splay(Box::new(tree), 10, &mut stats);
    assert_eq!(top.value, 10);
    assert!(top.left.is_none());
    let mid = top.right.as_ref().unwrap();
    assert_eq!(mid.value, 20);
    assert!(mid.left.is_none());
    assert_eq!(mid.right.as_ref().unwrap().value, 30);
}

#[test]
fn zig_zag_rotates_left_below_and_right_above() {
    let tree = node(30, Some(node(10, None, Some(leaf(20)))), Some(leaf(40)));
    let mut stats = Stats::new();
    let top = splay(Box::new(tree), 20, &mut stats);
    assert_eq!(top.value, 20);
    assert_eq!(top.left.as_ref().unwrap().value, 10);
    let right = top.right.as_ref().unwrap();
    assert_eq!(right.value, 30);
    assert!(right.left.is_none());
    assert_eq!(right.right.as_ref().unwrap().value, 40);
}

#[test]
fn zig_rotates_once() {
    let tree = node(30, Some(node(20, Some(leaf(10)), Some(leaf(25)))), Some(leaf(40)));
    let mut stats = Stats::new();
    let top = splay(Box::new(tree), 20, &mut stats);
    assert_eq!(top.value, 20);
    assert_eq!(top.left.as_ref().unwrap().value, 10);
    let right = top.right.as_ref().unwrap();
    assert_eq!(right.value, 30);
    assert_eq!(right.left.as_ref().unwrap().value, 25);
    assert_eq!(right.right.as_ref().unwrap().value, 40);
}

#[test]
fn splay_on_the_right_mirrors_the_rotations() {
    let mut stats = Stats::new();
    let chain = node(10, None, Some(node(20, None, Some(leaf(30)))));
    let top = splay(Box::new(chain), 30, &mut stats);
    assert_eq!(top.value, 30);
    assert!(top.right.is_none());
    let mid = top.left.as_ref().unwrap();
    assert_eq!(mid.value, 20);
    assert_eq!(mid.left.as_ref().unwrap().value, 10);

    let bent = node(10, Some(leaf(5)), Some(node(30, Some(leaf(20)), None)));
    let top = splay(Box::new(bent), 20, &mut stats);
    assert_eq!(top.value, 20);
    let left = top.left.as_ref().unwrap();
    assert_eq!(left.value, 10);
    assert_eq!(left.left.as_ref().unwrap().value, 5);
    assert!(left.right.is_none());
    assert_eq!(top.right.as_ref().unwrap().value, 30);
}

#[test]
fn splay_stops_at_the_last_node_of_the_search() {
    let mut stats = Stats::new();
    let tree = node(30, Some(node(20, Some(leaf(10)), None)), None);
    let top = splay(Box::new(tree), 15, &mut stats);
    // the search ends at 10, on whose right 15 would hang
    assert_eq!(top.value, 10);
    let mut keys = Vec::new();
    keys_of(&top, &mut keys);
    assert_eq!(keys, vec![10, 20, 30]);
}

#[test]
fn rotations_without_the_child_leave_the_node() {
    let mut stats = Stats::new();
    let alone = Box::new(leaf(5)).rotate_left(&mut stats);
    assert_eq!(alone.value, 5);
    let alone = alone.rotate_right(&mut stats);
    assert_eq!(alone.value, 5);
    assert!(alone.left.is_none() && alone.right.is_none());
    let pair = Box::new(node(5, Some(leaf(3)), None)).rotate_right(&mut stats);
    assert_eq!(pair.value, 3);
    assert_eq!(pair.right.as_ref().unwrap().value, 5);
    let back = pair.rotate_left(&mut stats);
    assert_eq!(back.value, 5);
    assert_eq!(back.left.as_ref().unwrap().value, 3);
}

#[test]
fn splay_delete_joins_the_subtrees_of_the_root() {
    let mut tree = build(&[50, 20, 70, 10, 30, 60, 90]);
    let mut stats = Stats::new();
    assert!(tree.delete(50, &mut stats));
    assert_eq!(tree.in_order(), vec![10, 20, 30, 60, 70, 90]);
    // The least key of the right part came to the root.
    assert_eq!(tree.root().unwrap().value, 60);
    assert!(tree.delete(10, &mut stats));
    assert!(tree.delete(90, &mut stats));
    assert_eq!(tree.in_order(), vec![20, 30, 60, 70]);
}

#[test]
fn splay_delete_of_absent_key_keeps_the_keys() {
    let mut tree = build(&[50, 20, 70, 10, 30, 60, 90]);
    let mut stats = Stats::new();
    assert!(!tree.delete(100, &mut stats));
    assert_eq!(tree.in_order(), vec![10, 20, 30, 50, 60, 70, 90]);
    assert!(!tree.delete(55, &mut stats));
    assert_eq!(tree.in_order(), vec![10, 20, 30, 50, 60, 70, 90]);
    let mut empty = SplayTree::new();
    assert!(!empty.delete(100, &mut stats));
}

#[test]
fn splay_tree_keeps_equal_keys() {
    let mut tree = build(&[5, 5]);
    assert_eq!(tree.in_order(), vec![5, 5]);
    let mut stats = Stats::new();
    assert!(tree.delete(5, &mut stats));
    assert_eq!(tree.in_order(), vec![5]);
    assert!(tree.delete(5, &mut stats));
    assert!(!tree.delete(5, &mut stats));
    assert!(tree.root().is_none());
}

#[test]
fn join_keeps_equal_keys_that_stand_left_of_the_new_root() {
    // Deleting the root 5 of:        5
    //                              /   \
    //                             3     5
    //                                  /
    //                                 5
    // splays the right part to a root that already has a left child.
    let right = node(5, Some(leaf(5)), Some(leaf(9)));
    let mut stats = Stats::new();
    let joined = join(Box::new(leaf(3)), Box::new(right), 5, &mut stats);
    let mut keys = Vec::new();
    keys_of(&joined, &mut keys);
    assert_eq!(keys, vec![3, 5, 5, 9]);

    let whole = node(5, Some(leaf(3)), Some(node(5, Some(leaf(5)), Some(leaf(9)))));
    let (rest, removed) = Box::new(whole).delete(5, &mut stats);
    assert!(removed);
    let mut keys = Vec::new();
    keys_of(&rest.unwrap(), &mut keys);
    assert_eq!(keys, vec![3, 5, 5, 9]);
}

#[test]
fn splay_tree_with_many_equal_keys_loses_none() {
    let keys = [5usize, 5, 9, 3, 5, 7, 5, 3, 9, 5, 1, 5];
    let mut tree = SplayTree::new();
    let mut stats = Stats::new();
    let mut held: Vec<usize> = Vec::new();
    for &k in &keys {
        tree.insert(k, &mut stats);
        held.push(k);
        held.sort();
        assert_eq!(tree.in_order(), held);
    }
    for &k in &[6usize, 5, 4, 5, 9, 5, 3, 5, 8, 5, 1, 5, 7, 9, 3] {
        let at = held.iter().position(|&x| x == k);
        assert_eq!(tree.delete(k, &mut stats), at.is_some());
        if let Some(at) = at {
            held.remove(at);
        }
        assert_eq!(tree.in_order(), held);
    }
    assert!(tree.root().is_none());
}

#[test]
fn splay_tree_is_empty_again_after_deleting_what_went_in() {
    let keys = [41usize, 7, 99, 23, 58, 3, 77, 64, 12];
    let mut tree = build(&keys);
    let mut stats = Stats::new();
    for &k in &[12usize, 41, 3, 99, 64, 7, 58, 77, 23] {
        assert!(tree.delete(k, &mut stats));
        assert!(tree.in_order().windows(2).all(|w| w[0] <= w[1]));
    }
    assert!(tree.root().is_none());
    assert_eq!(tree.height(), 0);
}

#[test]
fn splay_tree_of_rising_keys_is_a_chain() {
    let tree = build(&[1, 2, 3, 4, 5]);
    assert_eq!(tree.height(), 5);
    assert_eq!(tree.root().unwrap().value, 5);
    assert_eq!(tree.root().unwrap().height(), 5);
    assert_eq!(tree.render(), "   5\n   ╰──4\n      ╰──3\n         ╰──2\n            ╰──1\n");
}

#[test]
fn splay_tree_counts_every_step() {
    let mut tree = SplayTree::new();
    let mut first = Stats::new();
    tree.insert(10, &mut first);
    assert_eq!((first.comps, first.ptr_read, first.ptr_swap), (0, 0, 0));
    let mut second = Stats::new();
    tree.insert(20, &mut second);
    // the descent at 10; the splay: 10, its child 20, and one rotation
    assert_eq!((second.comps, second.ptr_read, second.ptr_swap), (3, 4, 3));
    assert_eq!(tree.root().unwrap().value, 20);
    let mut look = Stats::new();
    assert!(tree.search(10, &mut look));
    assert_eq!((look.comps, look.ptr_read, look.ptr_swap), (3, 3, 2));
    let mut gone = Stats::new();
    assert!(tree.delete(10, &mut gone));
    assert_eq!((gone.comps, gone.ptr_read, gone.ptr_swap, gone.height), (2, 2, 1, 0));
    assert_eq!(tree.in_order(), vec![20]);
}

#[test]
fn a_cloned_splay_tree_goes_its_own_way() {
    let mut tree = build(&[50, 20, 70]);
    let copy = tree.clone();
    let mut stats = Stats::new();
    assert!(tree.delete(20, &mut stats));
    assert_eq!(tree.in_order(), vec![50, 70]);
    assert_eq!(copy.in_order(), vec![20, 50, 70]);
    assert_eq!(copy.root().unwrap().value, 70);
    assert_eq!(copy.height(), tree.height() + 1);
}

#[test]
fn splay_tree_counters_never_fall() {
    let mut tree = SplayTree::new();
    let mut stats = Stats::new();
    stats.height(17);
    let mut last = (0, 0, 0);
    for &k in &[50usize, 20, 70, 10, 30] {
        tree.insert(k, &mut stats);
        assert!(stats.comps >= last.0 && stats.ptr_read >= last.1 && stats.ptr_swap >= last.2);
        last = (stats.comps, stats.ptr_read, stats.ptr_swap);
    }
    tree.delete(20, &mut stats);
    assert!(stats.comps > last.0);
    assert_eq!(stats.height, 17);
}
