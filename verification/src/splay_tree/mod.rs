//! A splay tree over `usize` keys. Equal keys may be held several times: a
//! new key goes to the right of the keys equal to it, and a deletion takes out
//! the node with the key that a splay brings to the root.

pub mod tree_node;

use vstd::prelude::*;
use vstd::multiset::Multiset;
use vstd::seq_lib::to_multiset_contains;
use vstd::string::StringExecFns;
use crate::experiment::{Stats, cost};
use crate::order::sorted;
use crate::splay_tree::tree_node::{
    Link, SplayNode, drawn, grown, grown_cost, height, in_order, keys, lemma_grown,
    lemma_height_le_len, lemma_in_order, lemma_removed, lemma_splay_of, ordered, removed,
    removed_cost, splay, splay_cost, splay_of, splayed,
};

verus! {

/// A search tree that moves the key last asked for to its root.
pub struct SplayTree {
    root: Link,
    size: usize,
}

impl View for SplayTree {
    type V = Seq<usize>;

    /// The keys of the tree as a left-to-right traversal meets them.
    closed spec fn view(&self) -> Seq<usize> {
        in_order(self.root)
    }
}

impl SplayTree {
    /// The nodes of the tree.
    pub closed spec fn shape(&self) -> Link {
        self.root
    }

    /// The node count that the tree keeps agrees with its nodes.
    pub closed spec fn counted(&self) -> bool {
        self.size == keys(self.root).len()
    }

    /// The tree is an ordered search tree.
    pub open spec fn wf(&self) -> bool {
        self.counted() && ordered(self.shape())
    }

    /// The key at the root, if the tree has one.
    pub open spec fn top(&self) -> Option<usize> {
        match self.shape() {
            None => None,
            Some(n) => Some(n.value),
        }
    }

    /// The view is the traversal of the nodes and holds their keys.
    pub proof fn lemma_view(&self)
        ensures
            self@ == in_order(self.shape()),
            self@.to_multiset() =~= keys(self.shape()),
            self@.len() == keys(self.shape()).len(),
            self@.len() == 0 <==> self.shape().is_none(),
    {
        lemma_in_order(self.root);
    }

    /// The traversal of a well-formed tree never steps down: each key is at
    /// least the one before it.
    pub proof fn lemma_sorted(&self)
        requires
            self.wf(),
        ensures
            sorted(self@),
    {
        lemma_in_order(self.root);
    }

    pub fn new() -> (tree: Self)
        ensures
            tree.wf(),
            tree@ =~= Seq::<usize>::empty(),
            tree@.to_multiset() =~= Multiset::<usize>::empty(),
            tree.shape().is_none(),
    {
        proof {
            lemma_in_order(None);
        }
        SplayTree { root: None, size: 0 }
    }

    /// Adds `value` to the tree, beside any equal keys already there, as a
    /// leaf where the descent from the root ends, and splays it to the root.
    pub fn insert(&mut self, value: usize, stats: &mut Stats)
        requires
            old(self).wf(),
            old(self)@.len() < usize::MAX,
        ensures
            final(self).wf(),
            final(self).shape() == Some(
                Box::new(
                    match old(self).shape() {
                        None => SplayNode { value, left: None, right: None },
                        Some(root) => grown(*root, value),
                    },
                ),
            ),
            final(self)@.to_multiset() =~= old(self)@.to_multiset().insert(value),
            final(self)@.len() == old(self)@.len() + 1,
            final(self).top() == Some(value),
            final(stats).charged(
                *old(stats),
                match old(self).shape() {
                    None => cost(0, 0, 0),
                    Some(root) => grown_cost(*root, value),
                },
            ),
    {
        proof {
            reveal(Stats::charged);
            lemma_in_order(self.root);
            if self.root.is_some() {
                lemma_grown(*self.root.unwrap(), value);
            }
        }
        match self.root.take() {
            Some(root) => {
                self.root = Some(root.insert(value, stats));
            },
            None => {
                self.root = Some(Box::new(SplayNode::new(value)));
            },
        }
        self.size = self.size + 1;
        proof {
            lemma_in_order(self.root);
        }
    }

    /// Looks `value` up: moves the node nearest to it to the root and returns
    /// whether the tree holds `value`, which is then at the root. The keys
    /// and their order stay as they are.
    pub fn search(&mut self, value: usize, stats: &mut Stats) -> (found: bool)
        requires
            old(self).wf(),
        ensures
            final(self).wf(),
            final(self).shape() == match old(self).shape() {
                None => None,
                Some(root) => Some(Box::new(splay_of(*root, value))),
            },
            final(self)@ == old(self)@,
            found == old(self)@.contains(value),
            found == (old(self)@.to_multiset().count(value) > 0),
            found ==> final(self).top() == Some(value),
            final(self).shape().is_some() ==> splayed(*final(self).shape().unwrap(), value),
            final(stats).charged(
                *old(stats),
                match old(self).shape() {
                    None => cost(0, 0, 0),
                    Some(root) => splay_cost(*root, value).plus(cost(1, 0, 0)),
                },
            ),
    {
        proof {
            reveal(Stats::charged);
            lemma_in_order(self.root);
            to_multiset_contains(self@, value);
            if self.root.is_some() {
                lemma_splay_of(*self.root.unwrap(), value);
            }
        }
        let ghost before = self.root;
        match self.root.take() {
            None => false,
            Some(root) => {
                let root = splay(root, value, stats);
                stats.comp();
                let found = root.value == value;
                self.root = Some(root);
                proof {
                    lemma_in_order(self.root);
                    crate::order::lemma_sorted_unique(in_order(before), in_order(self.root));
                    assert(keys(self.root).count(self.root.unwrap().value) > 0);
                }
                found
            },
        }
    }

    /// The number of nodes on the longest path from the root to an absent
    /// child; zero for the empty tree.
    pub fn height(&self) -> (h: usize)
        requires
            self.wf(),
        ensures
            h == height(self.shape()),
    {
        proof {
            lemma_height_le_len(self.root);
        }
        match &self.root {
            None => 0,
            Some(root) => root.height(),
        }
    }

    /// Removes one node holding `value`, if there is one, and returns whether
    /// it did: the tree is splayed for `value`, and if the root then holds
    /// it, the root is taken out and its subtrees are joined. The splay
    /// restructures the tree even where it finds nothing; the keys and their
    /// order are then as they were.
    pub fn delete(&mut self, value: usize, stats: &mut Stats) -> (found: bool)
        requires
            old(self).wf(),
        ensures
            final(self).wf(),
            final(self).shape() == match old(self).shape() {
                None => None,
                Some(root) => removed(*root, value).0,
            },
            found == old(self)@.contains(value),
            found == (old(self)@.to_multiset().count(value) > 0),
            final(self)@.to_multiset() =~= old(self)@.to_multiset().remove(value),
            found ==> final(self)@.len() + 1 == old(self)@.len(),
            !found ==> final(self)@ == old(self)@,
            final(stats).charged(
                *old(stats),
                match old(self).shape() {
                    None => cost(0, 0, 0),
                    Some(root) => removed_cost(*root, value),
                },
            ),
    {
        proof {
            reveal(Stats::charged);
            lemma_in_order(self.root);
            to_multiset_contains(self@, value);
            if self.root.is_some() {
                lemma_removed(*self.root.unwrap(), value);
            }
        }
        let ghost before = self.root;
        match self.root.take() {
            None => false,
            Some(root) => {
                let (rest, found) = root.delete(value, stats);
                self.root = rest;
                if found {
                    self.size = self.size - 1;
                }
                proof {
                    lemma_in_order(self.root);
                    if !found {
                        crate::order::lemma_sorted_unique(in_order(before), in_order(self.root));
                    }
                }
                found
            },
        }
    }

    /// The number of keys in the tree.
    pub fn len(&self) -> (n: usize)
        requires
            self.wf(),
        ensures
            n == self@.len(),
    {
        proof {
            lemma_in_order(self.root);
        }
        self.size
    }

    /// The root node, if the tree has one.
    pub fn root(&self) -> (r: Option<&SplayNode>)
        ensures
            r.is_some() == self.shape().is_some(),
            r.is_some() ==> *r.unwrap() == *self.shape().unwrap(),
    {
        match &self.root {
            None => None,
            Some(root) => Some(&**root),
        }
    }

    /// The picture of the tree, one line per node; `Empty tree` for a tree
    /// without nodes.
    pub fn render(&self) -> (s: String)
        ensures
            s@ =~= match self.shape() {
                None => "Empty tree"@,
                Some(_) => drawn(self.shape(), Seq::empty()),
            },
    {
        match &self.root {
            None => String::from_str("Empty tree"),
            Some(root) => {
                let mut s = String::new();
                root.print_node(&mut s, String::new());
                s
            },
        }
    }

    /// The keys of the tree in traversal order.
    pub fn in_order(&self) -> (v: Vec<usize>)
        ensures
            v@ == self@,
    {
        let mut v = Vec::new();
        if let Some(root) = &self.root {
            root.collect(&mut v);
        }
        v
    }
}

impl Clone for SplayTree {
    /// A tree of its own with the same nodes.
    fn clone(&self) -> (tree: Self)
        ensures
            tree.shape() == self.shape(),
            tree@ == self@,
            self.wf() ==> tree.wf(),
    {
        SplayTree {
            root: match &self.root {
                Some(root) => Some(Box::new((&**root).clone())),
                None => None,
            },
            size: self.size,
        }
    }
}

impl Default for SplayTree {
    fn default() -> (tree: Self)
        ensures
            tree.wf(),
            tree@ =~= Seq::<usize>::empty(),
    {
        Self::new()
    }
}

} // verus!
