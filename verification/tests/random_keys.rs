use aisd_tree::{bin_tree, experiment, rb_tree, splay_tree};
use rand::distr::Uniform;
use rand::prelude::{Distribution, SliceRandom};
use rand::Rng;

fn non_decreasing(keys: &[usize]) -> bool {
    keys.windows(2).all(|w| w[0] <= w[1])
}

#[test]
fn test_bin_tree_rand() {
    let n = 50usize;
    let mut rng = rand::rng();
    let range = Uniform::new(0, 2 * n - 1).unwrap();
    let mut tree = bin_tree::BinTree::new();
    let mut elements = Vec::new();
    let mut stats = experiment::Stats::new();
    for _i in 0..n {
        let x = range.sample(&mut rng);
        println!("inserting: {:?}", x);
        tree.insert(x, &mut stats);
        elements.push(x);
        println!("height: {:?}", tree.height2());
        println!("{}", tree.render());
        assert_eq!(tree.height2(), tree.height());
        assert!(non_decreasing(&tree.in_order()));
        assert_eq!(tree.in_order().len(), elements.len());
    }

    for _i in 0..n {
        let index = rng.random_range(0..elements.len());
        let x = elements.remove(index);
        println!("deleting: {:?}", x);
        assert!(tree.delete(x, &mut stats));
        println!("height: {:?}", tree.height2());
        println!("{}", tree.render());
        assert!(non_decreasing(&tree.in_order()));
        assert_eq!(tree.in_order().len(), elements.len());
    }
    assert!(tree.root().is_none());
}

#[test]
fn test_bin_tree_inc() {
    let n = 50usize;
    let mut tree = bin_tree::BinTree::new();
    let ref mut stats = experiment::Stats::new();
    for i in 0..n {
        println!("inserting: {:?}", i);
        tree.insert(i, stats);
        println!("{:?}", tree.height());
        println!("{}", tree.render());
        assert_eq!(tree.height(), i + 1);
    }
    println!("{}", tree.render());
    let mut elements = (0..n).collect::<Vec<_>>();
    elements.shuffle(&mut rand::rng());

    for i in elements {
        println!("deleting: {:?}", i);
        assert!(tree.delete(i, stats));
        println!("height: {:?}", tree.height());
        println!("{}", tree.render());
        assert!(non_decreasing(&tree.in_order()));
    }
    assert_eq!(tree.height(), 0);
}

#[test]
fn test_rb_tree_rand() {
    let n = 50usize;
    let mut rng = rand::rng();
    let range = Uniform::new(0, 2 * n - 1).unwrap();
    let mut tree = rb_tree::BinTree::new();
    let mut elements = Vec::new();
    let mut stats = experiment::Stats::new();
    for _i in 0..n {
        let x = range.sample(&mut rng);
        println!("inserting: {:?}", x);
        tree.insert(x, &mut stats);
        elements.push(x);
        println!("height: {:?}", tree.height());
        println!("{}", tree.render());
        assert!(non_decreasing(&tree.in_order()));
        assert_eq!(tree.in_order().len(), elements.len());
    }

    for _i in 0..n {
        let index = rng.random_range(0..elements.len());
        let x = elements.remove(index);
        println!("deleting: {:?}", x);
        assert!(tree.delete(x, &mut stats));
        println!("height: {:?}", tree.height());
        println!("{}", tree.render());
        assert!(non_decreasing(&tree.in_order()));
        assert_eq!(tree.in_order().len(), elements.len());
    }
    assert!(tree.root().is_none());
}

#[test]
fn test_rb_tree_inc() {
    let n = 50usize;
    let mut tree = rb_tree::BinTree::new();
    let ref mut stats = experiment::Stats::new();
    for i in 0..n {
        println!("inserting: {:?}", i);
        tree.insert(i, stats);
        println!("{:?}", tree.height());
        println!("{}", tree.render());
    }
    println!("{}", tree.render());
    assert!(tree.height() <= 11);
    let mut elements = (0..n).collect::<Vec<_>>();
    elements.shuffle(&mut rand::rng());

    for i in elements {
        println!("deleting: {:?}", i);
        assert!(tree.delete(i, stats));
        println!("height: {:?}", tree.height());
        println!("{}", tree.render());
        assert!(non_decreasing(&tree.in_order()));
    }
    assert_eq!(tree.height(), 0);
}

#[test]
fn test_splay_tree_rand() {
    let n = 50usize;
    let mut rng = rand::rng();
    let range = Uniform::new(0, 2 * n - 1).unwrap();
    let mut tree = splay_tree::SplayTree::new();
    let mut elements = Vec::new();
    let mut stats = experiment::Stats::new();
    for _i in 0..n {
        let x = range.sample(&mut rng);
        println!("inserting: {:?}", x);
        tree.insert(x, &mut stats);
        elements.push(x);
        println!("height: {:?}", tree.height());
        println!("{}", tree.render());
        assert_eq!(tree.root().unwrap().value, x);
        assert!(non_decreasing(&tree.in_order()));
        assert_eq!(tree.in_order().len(), elements.len());
    }

    for _i in 0..n {
        let index = rng.random_range(0..elements.len());
        let x = elements.remove(index);
        println!("deleting: {:?}", x);
        assert!(tree.delete(x, &mut stats));
        println!("height: {:?}", tree.height());
        println!("{}", tree.render());
        assert!(non_decreasing(&tree.in_order()));
        assert_eq!(tree.in_order().len(), elements.len());
    }
    assert!(tree.root().is_none());
}

#[test]
fn test_splay_tree_inc() {
    let n = 50usize;
    let mut tree = splay_tree::SplayTree::new();
    let ref mut stats = experiment::Stats::new();
    for i in 0..n {
        println!("inserting: {:?}", i);
        tree.insert(i, stats);
        println!("{:?}", tree.height());
        println!("{}", tree.render());
    }
    println!("{}", tree.render());
    let mut elements = (0..n).collect::<Vec<_>>();
    elements.shuffle(&mut rand::rng());

    for i in elements {
        println!("deleting: {:?}", i);
        assert!(tree.delete(i, stats));
        println!("height: {:?}", tree.height());
        println!("{}", tree.render());
        assert!(non_decreasing(&tree.in_order()));
    }
    assert_eq!(tree.height(), 0);
}
