//! A red-black tree over `usize` keys. Equal keys may be held several times:
//! a new key goes to the right of the keys equal to it, and a deletion takes
//! out the first node with the key that a search from the root meets.

pub mod deletion;
pub mod insertion;
pub mod node_pointer;
pub mod rotation;
pub mod tree_node;

use vstd::prelude::*;
use vstd::arithmetic::power2::pow2;
use vstd::multiset::Multiset;
use vstd::seq_lib::to_multiset_contains;
use vstd::string::StringExecFns;
use crate::experiment::{Stats, cost, lemma_charged_nothing, lemma_charged_twice};
use crate::order::sorted;
use crate::rb_tree::deletion::{
    delete_cost, delete_node, deleted, deleted_cost, deleted_well, lemma_deleted,
};
use crate::rb_tree::insertion::{insert_cost, insert_helper, inserted, lemma_inserted};
use crate::rb_tree::node_pointer::new_pointer;
use crate::rb_tree::tree_node::{
    Color, Link, Node, balanced, color_of, drawn, height, in_order, keys, lemma_height_le_len,
    lemma_height_logarithmic, lemma_in_order, no_red_red, ordered, road_text,
};

verus! {

/// A red-black tree: a search tree whose root is black, in which no red node
/// has a red child and every path from the root to an absent child crosses
/// the same number of black nodes.
pub struct BinTree {
    root: Link,
    size: usize,
}

impl View for BinTree {
    type V = Seq<usize>;

    /// The keys of the tree as a left-to-right traversal meets them.
    closed spec fn view(&self) -> Seq<usize> {
        in_order(self.root)
    }
}

impl BinTree {
    /// The nodes of the tree.
    pub closed spec fn shape(&self) -> Link {
        self.root
    }

    /// The node count that the tree keeps agrees with its nodes.
    pub closed spec fn counted(&self) -> bool {
        self.size == keys(self.root).len()
    }

    /// The tree is an ordered red-black tree.
    pub open spec fn wf(&self) -> bool {
        &&& self.counted()
        &&& ordered(self.shape())
        &&& balanced(self.shape())
        &&& no_red_red(self.shape())
        &&& color_of(self.shape()) == Color::Black
    }

    /// The view is the traversal of the nodes and holds their keys.
    pub proof fn lemma_view(&self)
        ensures
            self@ == in_order(self.shape()),
            self@.to_multiset() =~= keys(self.shape()),
            self@.len() == keys(self.shape()).len(),
            self@.len() == 0 <==> self.shape().is_none(),
    {
        lemma_in_order(self.root);
    }

    /// The traversal of a well-formed tree never steps down: each key is at
    /// least the one before it.
    pub proof fn lemma_sorted(&self)
        requires
            self.wf(),
        ensures
            sorted(self@),
    {
        lemma_in_order(self.root);
    }

    /// A well-formed tree of `n` keys is at most `2 * log2(n + 1)` high.
    pub proof fn lemma_height(&self)
        requires
            self.wf(),
        ensures
            pow2((height(self.shape()) + 1) / 2) <= self@.len() + 1,
    {
        lemma_in_order(self.root);
        lemma_height_logarithmic(self.root);
    }

    pub fn new() -> (tree: Self)
        ensures
            tree.wf(),
            tree@ =~= Seq::<usize>::empty(),
            tree@.to_multiset() =~= Multiset::<usize>::empty(),
            tree.shape().is_none(),
    {
        proof {
            lemma_in_order(None);
        }
        BinTree { root: None, size: 0 }
    }

    /// The number of nodes on the longest path from the root to an absent
    /// child; zero for the empty tree.
    pub fn height(&self) -> (h: usize)
        requires
            self.wf(),
        ensures
            h == height(self.shape()),
    {
        proof {
            lemma_height_le_len(self.root);
        }
        match &self.root {
            None => 0,
            Some(root) => root.measure_height(),
        }
    }

    /// Adds `val` to the tree, beside any equal keys already there, as a red
    /// leaf where the descent from the root ends, then restores the color
    /// rules on the way back and blackens the root. The counters take up
    /// each comparison, each link or color read and each link written.
    pub fn insert(&mut self, val: usize, stats: &mut Stats)
        requires
            old(self).wf(),
            old(self)@.len() < usize::MAX,
        ensures
            final(self).wf(),
            final(self).shape() == inserted(old(self).shape(), val),
            final(self)@.to_multiset() =~= old(self)@.to_multiset().insert(val),
            final(self)@.len() == old(self)@.len() + 1,
            final(stats).charged(*old(stats), insert_cost(old(self).shape(), val)),
    {
        proof {
            reveal(Stats::charged);
            lemma_in_order(self.root);
            lemma_inserted(self.root, val);
            lemma_in_order(inserted(self.root, val));
        }
        match self.root.take() {
            None => {
                stats.swap();
                let mut root = new_pointer(val);
                root.color = Color::Black;
                self.root = Some(root);
            },
            Some(root) => {
                stats.read();
                let mut root = insert_helper(root, val, stats);
                root.color = Color::Black;
                self.root = Some(root);
            },
        }
        self.size = self.size + 1;
    }

    /// Removes the first node holding `val` that a search from the root
    /// meets, if there is one, and restores the color rules. Returns whether
    /// a node was removed; if none was, the tree is left as it was.
    pub fn delete(&mut self, val: usize, stats: &mut Stats) -> (removed: bool)
        requires
            old(self).wf(),
        ensures
            final(self).wf(),
            removed == old(self)@.contains(val),
            removed == (old(self)@.to_multiset().count(val) > 0),
            final(self).shape() == deleted(old(self).shape(), val).0,
            final(self)@.to_multiset() =~= old(self)@.to_multiset().remove(val),
            removed ==> final(self)@.len() + 1 == old(self)@.len(),
            !removed ==> final(self).shape() == old(self).shape(),
            final(stats).charged(*old(stats), delete_cost(old(self).shape(), val)),
    {
        let ghost before = self.root;
        let ghost s0 = *stats;
        proof {
            lemma_in_order(before);
            to_multiset_contains(in_order(before), val);
            lemma_deleted(before, val);
            lemma_in_order(deleted(before, val).0);
            assert(deleted_well(before, val));
        }
        match self.root.take() {
            None => {
                proof {
                    lemma_charged_nothing(s0);
                }
                false
            },
            Some(root) => {
                stats.read();
                let ghost s1 = *stats;
                let (rest, removed, _short) = delete_node(root, val, stats);
                let ghost s2 = *stats;
                stats.swap();
                proof {
                    lemma_charged_twice(s0, s1, s2, cost(0, 1, 0), deleted_cost(before, val));
                    lemma_charged_twice(
                        s0,
                        s2,
                        *stats,
                        cost(0, 1, 0).plus(deleted_cost(before, val)),
                        cost(0, 0, 1),
                    );
                }
                self.root = rest;
                if removed {
                    assert(keys(before).len() >= 1);
                    self.size = self.size - 1;
                }
                removed
            },
        }
    }

    /// The number of keys in the tree.
    pub fn len(&self) -> (n: usize)
        requires
            self.wf(),
        ensures
            n == self@.len(),
    {
        proof {
            lemma_in_order(self.root);
        }
        self.size
    }

    /// The root node, if the tree has one.
    pub fn root(&self) -> (r: Option<&Node>)
        ensures
            r.is_some() == self.shape().is_some(),
            r.is_some() ==> *r.unwrap() == *self.shape().unwrap(),
    {
        match &self.root {
            None => None,
            Some(root) => Some(&**root),
        }
    }

    /// The picture of the tree, one line per node; `Empty tree` for a tree
    /// without nodes.
    pub fn render(&self) -> (s: String)
        ensures
            s@ =~= match self.shape() {
                None => "Empty tree"@,
                Some(_) => drawn(self.shape(), Seq::empty()),
            },
    {
        match &self.root {
            None => String::from_str("Empty tree"),
            Some(root) => {
                let mut s = String::new();
                root.print_node(&mut s, String::new());
                s
            },
        }
    }

    /// The keys of the tree as a descent from the root lists them, each
    /// followed by its left and then its right subtree; `Empty tree` and a
    /// line break for a tree without nodes.
    pub fn print_road(&self) -> (s: String)
        ensures
            s@ == match self.shape() {
                None => "Empty tree\n"@,
                Some(_) => road_text(self.shape()),
            },
    {
        match &self.root {
            None => String::from_str("Empty tree\n"),
            Some(root) => {
                let mut s = String::new();
                root.print_road(&mut s);
                assert(Seq::<char>::empty() + road_text(self.root) =~= road_text(self.root));
                s
            },
        }
    }

    /// The keys of the tree in traversal order.
    pub fn in_order(&self) -> (v: Vec<usize>)
        ensures
            v@ == self@,
    {
        let mut v = Vec::new();
        if let Some(root) = &self.root {
            root.collect(&mut v);
        }
        v
    }
}

} // verus!
