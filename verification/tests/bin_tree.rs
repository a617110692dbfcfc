use aisd_tree::bin_tree::tree_node::Node;
use aisd_tree::bin_tree::BinTree;
use aisd_tree::experiment::Stats;

fn build(keys: &[usize]) -> BinTree {
    let mut tree = BinTree::new();
    let mut stats = Stats::new();
    for &k in keys {
        tree.insert(k, &mut stats);
    }
    tree
}

fn strictly_ordered(node: &Node, low: Option<usize>, high: Option<usize>) -> bool {
    // Every key is at least `low` and below `high`: equal keys stand to the right.
    low.map_or(true, |l| l <= node.val)
        && high.map_or(true, |h| node.val < h)
        && node.left.as_ref().map_or(true, |l| strictly_ordered(l, low, Some(node.val)))
        && node.right.as_ref().map_or(true, |r| strictly_ordered(r, Some(node.val), high))
}

#[test]
fn empty_bin_tree_has_no_height_and_no_keys() {
    let tree = BinTree::new();
    assert_eq!(tree.height(), 0);
    assert_eq!(tree.height2(), 0);
    assert!(tree.in_order().is_empty());
    assert!(tree.root().is_none());
    assert_eq!(tree.render(), "Empty tree");
}

#[test]
fn node_new_is_a_leaf() {
    let node = Node::new(42);
    assert_eq!(*node.val(), 42);
    assert!(node.left.is_none());
    assert!(node.right.is_none());
    assert_eq!(node.measure_height(), 1);
    let boxed = Node::new_pointer(7);
    assert_eq!(boxed.val, 7);
}

#[test]
fn successor_replaces_deleted_root() {
    let mut tree = build(&[5, 3, 8, 1, 4, 7, 9]);
    let mut stats = Stats::new();
    assert!(tree.delete(5, &mut stats));
    assert_eq!(tree.in_order(), vec![1, 3, 4, 7, 8, 9]);
    let root = tree.root().unwrap();
    assert_eq!(*root.val(), 7);
    assert_eq!(root.left.as_ref().unwrap().val, 3);
    let right = root.right.as_ref().unwrap();
    assert_eq!(right.val, 8);
    assert!(right.left.is_none());
    assert_eq!(right.right.as_ref().unwrap().val, 9);
}

#[test]
fn successor_that_is_the_right_child_keeps_its_right_subtree() {
    let mut tree = build(&[5, 3, 8, 9]);
    let mut stats = Stats::new();
    assert!(tree.delete(5, &mut stats));
    let root = tree.root().unwrap();
    assert_eq!(root.val, 8);
    assert_eq!(root.left.as_ref().unwrap().val, 3);
    assert_eq!(root.right.as_ref().unwrap().val, 9);
    assert_eq!(tree.in_order(), vec![3, 8, 9]);
}

#[test]
fn successor_deep_in_right_subtree_hands_its_child_to_its_parent() {
    let mut tree = build(&[5, 3, 10, 7, 12, 8]);
    let mut stats = Stats::new();
    assert!(tree.delete(5, &mut stats));
    let root = tree.root().unwrap();
    assert_eq!(root.val, 7);
    let ten = root.right.as_ref().unwrap();
    assert_eq!(ten.val, 10);
    assert_eq!(ten.left.as_ref().unwrap().val, 8);
    assert_eq!(ten.right.as_ref().unwrap().val, 12);
    assert_eq!(tree.in_order(), vec![3, 7, 8, 10, 12]);
}

#[test]
fn delete_leaf_and_single_child_nodes() {
    let mut tree = build(&[5, 3, 8, 1]);
    let mut stats = Stats::new();
    assert!(tree.delete(3, &mut stats));
    assert_eq!(tree.root().unwrap().left.as_ref().unwrap().val, 1);
    assert!(tree.delete(1, &mut stats));
    assert!(tree.root().unwrap().left.is_none());
    assert!(tree.delete(8, &mut stats));
    assert!(tree.delete(5, &mut stats));
    assert!(tree.root().is_none());
    assert!(!tree.delete(5, &mut stats));
}

#[test]
fn bin_tree_delete_of_absent_key_changes_nothing() {
    let mut tree = build(&[5, 3, 8, 1, 4, 7, 9]);
    let before = tree.render();
    let mut stats = Stats::new();
    assert!(!tree.delete(100, &mut stats));
    assert_eq!(tree.render(), before);
    assert_eq!(tree.in_order(), vec![1, 3, 4, 5, 7, 8, 9]);
}

#[test]
fn bin_tree_keeps_equal_keys_to_the_right() {
    let mut tree = build(&[5, 5]);
    assert_eq!(tree.in_order(), vec![5, 5]);
    let root = tree.root().unwrap();
    assert!(root.left.is_none());
    assert_eq!(root.right.as_ref().unwrap().val, 5);
    let mut stats = Stats::new();
    assert!(tree.delete(5, &mut stats));
    assert_eq!(tree.in_order(), vec![5]);
    assert!(tree.delete(5, &mut stats));
    assert!(!tree.delete(5, &mut stats));
}

#[test]
fn bin_tree_stays_ordered_through_inserts_and_deletes() {
    let keys = [50usize, 20, 70, 20, 60, 90, 10, 30, 70, 65, 5, 50];
    let mut tree = BinTree::new();
    let mut stats = Stats::new();
    for &k in &keys {
        tree.insert(k, &mut stats);
        assert!(strictly_ordered(tree.root().unwrap(), None, None));
        assert!(tree.in_order().windows(2).all(|w| w[0] <= w[1]));
    }
    for &k in &[20usize, 70, 50, 5, 90] {
        assert!(tree.delete(k, &mut stats));
        assert!(strictly_ordered(tree.root().unwrap(), None, None));
        assert!(tree.in_order().windows(2).all(|w| w[0] <= w[1]));
    }
    assert_eq!(tree.in_order(), vec![10, 20, 30, 50, 60, 65, 70]);
}

#[test]
fn bin_tree_is_empty_again_after_deleting_what_went_in() {
    let keys = [41usize, 7, 99, 23, 58, 3, 77, 64, 12];
    let mut tree = build(&keys);
    assert_eq!(tree.in_order().len(), keys.len());
    let mut stats = Stats::new();
    for &k in &[12usize, 41, 3, 99, 64, 7, 58, 77, 23] {
        assert!(tree.delete(k, &mut stats));
    }
    assert!(tree.root().is_none());
    assert_eq!(tree.height(), 0);
    assert!(tree.in_order().is_empty());
}

#[test]
fn bin_tree_height_is_longest_path() {
    let tree = build(&[5, 3, 8, 1, 4, 7, 9]);
    assert_eq!(tree.height(), 3);
    assert_eq!(tree.height2(), 3);
    let chain = build(&[1, 2, 3, 4, 5, 6]);
    assert_eq!(chain.height(), 6);
    assert_eq!(chain.height2(), 6);
    let lopsided = build(&[10, 5, 4, 3, 12]);
    assert_eq!(lopsided.height(), 4);
    assert_eq!(lopsided.height2(), 4);
}

#[test]
fn bin_tree_insert_counts_the_descent() {
    let mut tree = BinTree::new();
    let mut stats = Stats::new();
    tree.insert(5, &mut stats);
    assert_eq!((stats.comps, stats.ptr_read, stats.ptr_swap), (0, 0, 1));
    tree.insert(3, &mut stats);
    assert_eq!((stats.comps, stats.ptr_read, stats.ptr_swap), (1, 1, 2));
    tree.insert(8, &mut stats);
    let mut one = Stats::new();
    tree.insert(4, &mut one);
    assert_eq!((one.comps, one.ptr_read, one.ptr_swap, one.height), (2, 2, 1, 0));
}

#[test]
fn bin_tree_delete_counts_every_step() {
    let mut tree = build(&[5, 3, 8, 1, 4, 7, 9]);
    let mut leaf = Stats::new();
    assert!(tree.delete(4, &mut leaf));
    // the root link; two links followed; both links of the node found; the
    // link to it cleared
    assert_eq!((leaf.comps, leaf.ptr_read, leaf.ptr_swap), (3, 5, 1));
    let mut two = Stats::new();
    assert!(tree.delete(5, &mut two));
    // the root link, both links of 5, the way down to 7; 7 cut out, given
    // both subtrees and put in the place of 5
    assert_eq!((two.comps, two.ptr_read, two.ptr_swap), (1, 5, 4));
    let mut one = Stats::new();
    assert!(tree.delete(3, &mut one));
    assert_eq!((one.comps, one.ptr_read, one.ptr_swap), (2, 4, 2));
}

#[test]
fn bin_tree_delete_counts_the_comparisons() {
    let mut tree = build(&[5, 3, 8, 1, 4, 7, 9]);
    let mut stats = Stats::new();
    assert!(tree.delete(4, &mut stats));
    assert_eq!(stats.comps, 3);
    let mut miss = Stats::new();
    assert!(!tree.delete(6, &mut miss));
    assert_eq!(miss.comps, 3);
    let mut empty = BinTree::new();
    let mut none = Stats::new();
    assert!(!empty.delete(1, &mut none));
    assert_eq!(none.comps, 0);
}

#[test]
fn bin_tree_picture() {
    let tree = build(&[5, 3, 8, 1, 4]);
    assert_eq!(
        tree.render(),
        "   ╭──8\n   5\n   │  ╭──4\n   ╰──3\n      ╰──1\n"
    );
}
