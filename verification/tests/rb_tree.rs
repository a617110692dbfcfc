use aisd_tree::experiment::Stats;
use aisd_tree::rb_tree::node_pointer::{color, new_pointer};
use aisd_tree::rb_tree::tree_node::{Color, Node};
use aisd_tree::rb_tree::BinTree;

fn build(keys: &[usize]) -> BinTree {
    let mut tree = BinTree::new();
    let mut stats = Stats::new();
    for &k in keys {
        tree.insert(k, &mut stats);
    }
    tree
}

/// The black height of the subtree, or `None` where a red node has a red
/// child or two paths cross different numbers of black nodes.
fn black_height(node: Option<&Node>) -> Option<usize> {
    match node {
        None => Some(0),
        Some(n) => {
            if n.color == Color::Red {
                let red_child = |c: &Option<Box<Node>>| {
                    c.as_ref().map_or(false, |c| c.color == Color::Red)
                };
                if red_child(&n.left) || red_child(&n.right) {
                    return None;
                }
            }
            let l = black_height(n.left.as_deref())?;
            let r = black_height(n.right.as_deref())?;
            if l != r {
                return None;
            }
            Some(l + if n.color == Color::Black { 1 } else { 0 })
        }
    }
}

fn is_red_black(tree: &BinTree) -> bool {
    let root_black = tree.root().map_or(true, |r| r.color == Color::Black);
    let sorted = tree.in_order().windows(2).all(|w| w[0] <= w[1]);
    root_black && sorted && black_height(tree.root()).is_some()
}

fn log_bound_holds(tree: &BinTree) -> bool {
    // height <= 2 * log2(n + 1), as 2^ceil(height / 2) <= n + 1
    let n = tree.in_order().len();
    let half = (tree.height() + 1) / 2;
    (1usize << half) <= n + 1
}

#[test]
fn empty_rb_tree_has_no_height_and_no_keys() {
    let tree = BinTree::new();
    assert_eq!(tree.height(), 0);
    assert!(tree.in_order().is_empty());
    assert!(tree.root().is_none());
    assert_eq!(tree.render(), "Empty tree");
    assert_eq!(tree.print_road(), "Empty tree\n");
    assert!(is_red_black(&tree));
}

#[test]
fn absent_child_counts_as_black() {
    assert_eq!(color(&None), Color::Black);
    let leaf = new_pointer(3);
    assert_eq!(leaf.color, Color::Red);
    assert_eq!(*leaf.val(), 3);
    assert!(leaf.left.is_none() && leaf.right.is_none());
    assert_eq!(color(&Some(leaf)), Color::Red);
    assert_eq!(Node::new(9).measure_height(), 1);
}

#[test]
fn three_rising_keys_rotate_left_at_the_first() {
    let tree = build(&[10, 20, 30]);
    let root = tree.root().unwrap();
    assert_eq!(root.val, 20);
    assert_eq!(root.color, Color::Black);
    let left = root.left.as_ref().unwrap();
    let right = root.right.as_ref().unwrap();
    assert_eq!(left.val, 10);
    assert_eq!(right.val, 30);
    assert_eq!(left.color, Color::Red);
    assert_eq!(right.color, Color::Red);
    assert_eq!(tree.height(), 2);
    assert_eq!(tree.in_order(), vec![10, 20, 30]);
    assert!(is_red_black(&tree));
}

#[test]
fn three_falling_keys_rotate_right_at_the_first() {
    let tree = build(&[30, 20, 10]);
    let root = tree.root().unwrap();
    assert_eq!(root.val, 20);
    assert_eq!(root.color, Color::Black);
    assert_eq!(root.left.as_ref().unwrap().val, 10);
    assert_eq!(root.right.as_ref().unwrap().val, 30);
    assert_eq!(tree.height(), 2);
}

#[test]
fn inner_grandchild_takes_two_rotations() {
    let tree = build(&[10, 30, 20]);
    let root = tree.root().unwrap();
    assert_eq!((root.val, root.color), (20, Color::Black));
    assert_eq!(root.left.as_ref().unwrap().val, 10);
    assert_eq!(root.right.as_ref().unwrap().val, 30);
    let tree = build(&[30, 10, 20]);
    let root = tree.root().unwrap();
    assert_eq!((root.val, root.color), (20, Color::Black));
    assert_eq!(root.left.as_ref().unwrap().val, 10);
    assert_eq!(root.right.as_ref().unwrap().val, 30);
}

#[test]
fn red_uncle_recolors_without_rotation() {
    let tree = build(&[10, 20, 30, 40]);
    let root = tree.root().unwrap();
    assert_eq!((root.val, root.color), (20, Color::Black));
    let left = root.left.as_ref().unwrap();
    let right = root.right.as_ref().unwrap();
    assert_eq!((left.val, left.color), (10, Color::Black));
    assert_eq!((right.val, right.color), (30, Color::Black));
    let leaf = right.right.as_ref().unwrap();
    assert_eq!((leaf.val, leaf.color), (40, Color::Red));
    assert_eq!(tree.height(), 3);
    assert!(is_red_black(&tree));
}

#[test]
fn rb_tree_invariants_hold_after_every_step() {
    let keys = [
        50usize, 20, 70, 20, 60, 90, 10, 30, 70, 65, 5, 50, 1, 2, 3, 4, 99, 98, 97, 55, 56, 57,
        20, 20, 33, 34, 35, 80, 81, 82,
    ];
    let mut tree = BinTree::new();
    let mut stats = Stats::new();
    let mut held = Vec::new();
    for &k in &keys {
        tree.insert(k, &mut stats);
        held.push(k);
        held.sort();
        assert!(is_red_black(&tree));
        assert!(log_bound_holds(&tree));
        assert_eq!(tree.in_order(), held);
    }
    for &k in &[20usize, 70, 50, 5, 90, 1, 99, 20, 57, 33, 20, 2, 3, 4, 10, 65, 60] {
        assert!(tree.delete(k, &mut stats));
        let at = held.iter().position(|&x| x == k).unwrap();
        held.remove(at);
        assert!(is_red_black(&tree));
        assert!(log_bound_holds(&tree));
        assert_eq!(tree.in_order(), held);
    }
}

#[test]
fn rb_tree_of_many_rising_keys_stays_low() {
    let mut tree = BinTree::new();
    let mut stats = Stats::new();
    for k in 0..1000usize {
        tree.insert(k, &mut stats);
    }
    assert!(is_red_black(&tree));
    // 2 * log2(1001) is just below 20
    assert!(tree.height() <= 19);
    for k in 0..1000usize {
        assert!(tree.delete(k, &mut stats));
        assert!(is_red_black(&tree));
        assert!(log_bound_holds(&tree));
    }
    assert!(tree.root().is_none());
}

#[test]
fn rb_tree_delete_of_absent_key_changes_nothing() {
    let mut tree = build(&[5, 3, 8, 1, 4, 7, 9]);
    let before = tree.render();
    let mut stats = Stats::new();
    assert!(!tree.delete(100, &mut stats));
    assert_eq!(tree.render(), before);
    assert_eq!(tree.in_order(), vec![1, 3, 4, 5, 7, 8, 9]);
    let mut empty = BinTree::new();
    assert!(!empty.delete(100, &mut stats));
}

#[test]
fn rb_tree_keeps_equal_keys() {
    let mut tree = build(&[5, 5]);
    assert_eq!(tree.in_order(), vec![5, 5]);
    assert_eq!(tree.root().unwrap().right.as_ref().unwrap().val, 5);
    let mut stats = Stats::new();
    tree.insert(5, &mut stats);
    assert_eq!(tree.in_order(), vec![5, 5, 5]);
    assert!(is_red_black(&tree));
    assert!(tree.delete(5, &mut stats));
    assert_eq!(tree.in_order(), vec![5, 5]);
    assert!(tree.delete(5, &mut stats));
    assert!(tree.delete(5, &mut stats));
    assert!(!tree.delete(5, &mut stats));
    assert!(tree.root().is_none());
}

#[test]
fn rb_tree_is_empty_again_after_deleting_what_went_in() {
    let keys = [41usize, 7, 99, 23, 58, 3, 77, 64, 12];
    let mut tree = build(&keys);
    let mut stats = Stats::new();
    for &k in &[12usize, 41, 3, 99, 64, 7, 58, 77, 23] {
        assert!(tree.delete(k, &mut stats));
    }
    assert!(tree.root().is_none());
    assert_eq!(tree.height(), 0);
}

#[test]
fn deleting_a_black_leaf_beside_a_black_sibling_recolors() {
    // 20 black over 10 and 30, both black after 40 came and went.
    let mut tree = build(&[10, 20, 30, 40]);
    let mut stats = Stats::new();
    assert!(tree.delete(40, &mut stats));
    assert!(tree.delete(10, &mut stats));
    let root = tree.root().unwrap();
    assert_eq!((root.val, root.color), (20, Color::Black));
    assert!(root.left.is_none());
    let right = root.right.as_ref().unwrap();
    assert_eq!((right.val, right.color), (30, Color::Red));
    assert!(is_red_black(&tree));
}

#[test]
fn deleting_beside_a_sibling_with_a_red_far_child_rotates_once() {
    let mut tree = build(&[10, 20, 30, 40]);
    let mut stats = Stats::new();
    assert!(tree.delete(10, &mut stats));
    let root = tree.root().unwrap();
    assert_eq!((root.val, root.color), (30, Color::Black));
    let left = root.left.as_ref().unwrap();
    let right = root.right.as_ref().unwrap();
    assert_eq!((left.val, left.color), (20, Color::Black));
    assert_eq!((right.val, right.color), (40, Color::Black));
    assert!(is_red_black(&tree));
}

#[test]
fn deleting_beside_a_sibling_with_a_red_near_child_rotates_twice() {
    let mut tree = build(&[10, 20, 40, 30]);
    let mut stats = Stats::new();
    assert!(tree.delete(10, &mut stats));
    let root = tree.root().unwrap();
    assert_eq!((root.val, root.color), (30, Color::Black));
    let left = root.left.as_ref().unwrap();
    let right = root.right.as_ref().unwrap();
    assert_eq!((left.val, left.color), (20, Color::Black));
    assert_eq!((right.val, right.color), (40, Color::Black));
    assert!(is_red_black(&tree));
}

#[test]
fn deleting_beside_a_red_sibling_rotates_it_up_first() {
    // 2 black over 1 black and 4 red; 4 over 3 and 5, both black; 6 red below 5.
    let mut tree = build(&[1, 2, 3, 4, 5, 6]);
    let root = tree.root().unwrap();
    assert_eq!((root.val, root.color), (2, Color::Black));
    let four = root.right.as_ref().unwrap();
    assert_eq!((four.val, four.color), (4, Color::Red));
    let mut stats = Stats::new();
    assert!(tree.delete(1, &mut stats));
    let root = tree.root().unwrap();
    assert_eq!((root.val, root.color), (4, Color::Black));
    let two = root.left.as_ref().unwrap();
    assert_eq!((two.val, two.color), (2, Color::Black));
    assert!(two.left.is_none());
    let three = two.right.as_ref().unwrap();
    assert_eq!((three.val, three.color), (3, Color::Red));
    let five = root.right.as_ref().unwrap();
    assert_eq!((five.val, five.color), (5, Color::Black));
    assert_eq!(five.right.as_ref().unwrap().color, Color::Red);
    assert!(is_red_black(&tree));
}

#[test]
fn deleting_on_the_right_mirrors_the_repairs() {
    let mut tree = build(&[6, 5, 4, 3, 2, 1]);
    let mut stats = Stats::new();
    assert!(tree.delete(6, &mut stats));
    let root = tree.root().unwrap();
    assert_eq!((root.val, root.color), (3, Color::Black));
    let five = root.right.as_ref().unwrap();
    assert_eq!((five.val, five.color), (5, Color::Black));
    assert!(five.right.is_none());
    assert_eq!(five.left.as_ref().unwrap().val, 4);
    assert_eq!(five.left.as_ref().unwrap().color, Color::Red);
    let mut tree = build(&[40, 30, 20, 10]);
    assert!(tree.delete(40, &mut stats));
    let root = tree.root().unwrap();
    assert_eq!((root.val, root.color), (20, Color::Black));
    assert_eq!(root.left.as_ref().unwrap().color, Color::Black);
    assert_eq!(root.right.as_ref().unwrap().color, Color::Black);
    let mut tree = build(&[40, 30, 10, 20]);
    assert!(tree.delete(40, &mut stats));
    let root = tree.root().unwrap();
    assert_eq!((root.val, root.color), (20, Color::Black));
    assert_eq!(root.left.as_ref().unwrap().val, 10);
    assert_eq!(root.right.as_ref().unwrap().val, 30);
    assert!(is_red_black(&tree));
}

#[test]
fn deleting_a_node_with_two_children_promotes_its_successor() {
    let mut tree = build(&[5, 3, 8, 1, 4, 7, 9]);
    let mut stats = Stats::new();
    assert!(tree.delete(5, &mut stats));
    assert_eq!(tree.root().unwrap().val, 7);
    assert_eq!(tree.root().unwrap().color, Color::Black);
    assert_eq!(tree.in_order(), vec![1, 3, 4, 7, 8, 9]);
    assert!(is_red_black(&tree));
}

#[test]
fn rb_tree_counts_the_comparisons_of_the_descent() {
    let mut tree = build(&[10, 20, 30]);
    let mut stats = Stats::new();
    tree.insert(25, &mut stats);
    assert_eq!(stats.comps, 2);
    assert_eq!(stats.height, 0);
    let mut found = Stats::new();
    assert!(tree.delete(20, &mut found));
    assert_eq!(found.comps, 1);
    let mut miss = Stats::new();
    assert!(!tree.delete(26, &mut miss));
    assert_eq!(miss.comps, 2);
}

#[test]
fn rb_tree_counts_every_step() {
    let mut tree = BinTree::new();
    let mut first = Stats::new();
    tree.insert(10, &mut first);
    assert_eq!((first.comps, first.ptr_read, first.ptr_swap), (0, 0, 1));
    let mut second = Stats::new();
    tree.insert(20, &mut second);
    // the root link; at 10 the link followed and three colors
    assert_eq!((second.comps, second.ptr_read, second.ptr_swap), (1, 5, 1));
    let mut third = Stats::new();
    tree.insert(30, &mut third);
    // two nodes passed; three colors at 20; four colors and a rotation at 10
    assert_eq!((third.comps, third.ptr_read, third.ptr_swap), (2, 11, 5));
    let mut gone = Stats::new();
    assert!(tree.delete(10, &mut gone));
    assert_eq!((gone.comps, gone.ptr_read, gone.ptr_swap, gone.height), (2, 4, 2, 0));
    let mut none = Stats::new();
    let mut empty = BinTree::new();
    assert!(!empty.delete(1, &mut none));
    assert_eq!((none.comps, none.ptr_read, none.ptr_swap), (0, 0, 0));
}

#[test]
fn rb_tree_picture_marks_red_nodes() {
    let tree = build(&[10, 20, 30]);
    assert_eq!(
        tree.render(),
        "   ╭──\x1b[31m30\x1b[0m\n   20\n   ╰──\x1b[31m10\x1b[0m\n"
    );
    assert_eq!(tree.print_road(), "20 10 \n\n30 \n\n");
}
