//! An unbalanced binary search tree over `usize` keys. Equal keys may be held
//! several times: a new key goes to the right of the keys equal to it, and a
//! deletion takes out the first node with the key that a search from the root
//! meets.

pub mod tree_node;

use vstd::prelude::*;
use std::collections::VecDeque;
use vstd::multiset::Multiset;
use vstd::string::StringExecFns;
use crate::bin_tree::tree_node::{
    Direction, Link, Node, delete_cost, deleted, drawn, height, in_order, insert_cost,
    insert_path_len, inserted, keys, lemma_deleted, lemma_height_le_len, lemma_in_order,
    lemma_inserted, min_cost, min_key, ordered, replacement, replacement_cost, search_cost,
    without_min,
};
use crate::experiment::{Stats, cost};
use crate::order::sorted;

verus! {

/// One step of a descent: the node passed, the side on which the descent
/// went on, and the subtree left behind on the other side.
pub struct Step {
    pub val: usize,
    pub side: Direction,
    pub other: Link,
}

/// The node of a step with `t` hung on the side that the descent took.
pub open spec fn step_up(step: Step, t: Link) -> Link {
    match step.side {
        Direction::Left => Some(Box::new(Node { val: step.val, left: t, right: step.other })),
        Direction::Right => Some(Box::new(Node { val: step.val, left: step.other, right: t })),
    }
}

/// The tree that has `t` at the end of the descent `path`.
pub open spec fn plug(path: Seq<Step>, t: Link) -> Link
    decreases path.len(),
{
    if path.len() == 0 {
        t
    } else {
        plug(path.drop_last(), step_up(path.last(), t))
    }
}

/// The lowest level that the subtree of a queued node reaches, where the
/// node itself stands on level `item.0`.
pub open spec fn floor_of(item: (usize, &Node)) -> nat {
    (item.0 + height(Some(Box::new(*item.1))) - 1) as nat
}

/// The lowest level that the subtrees of the queued nodes reach.
pub open spec fn reach(queue: Seq<(usize, &Node)>) -> nat
    decreases queue.len(),
{
    if queue.len() == 0 {
        0
    } else {
        let rest = reach(queue.drop_first());
        if floor_of(queue.first()) >= rest {
            floor_of(queue.first())
        } else {
            rest
        }
    }
}

/// The number of nodes in the subtrees of the queued nodes.
pub open spec fn load(queue: Seq<(usize, &Node)>) -> nat
    decreases queue.len(),
{
    if queue.len() == 0 {
        0
    } else {
        keys(Some(Box::new(*queue.first().1))).len() + load(queue.drop_first())
    }
}

/// Queueing one more node adds its subtree to the load and extends the reach
/// to the lowest level of that subtree.
pub proof fn lemma_queued(queue: Seq<(usize, &Node)>, item: (usize, &Node))
    ensures
        load(queue.push(item)) == load(queue) + keys(Some(Box::new(*item.1))).len(),
        reach(queue.push(item)) == if floor_of(item) >= reach(queue) {
            floor_of(item)
        } else {
            reach(queue)
        },
    decreases queue.len(),
{
    if queue.len() == 0 {
        assert(queue.push(item).drop_first() =~= queue);
    } else {
        assert(queue.push(item).drop_first() =~= queue.drop_first().push(item));
        lemma_queued(queue.drop_first(), item);
    }
}

/// An unbalanced search tree.
pub struct BinTree {
    root: Link,
    size: usize,
}

impl View for BinTree {
    type V = Seq<usize>;

    /// The keys of the tree as a left-to-right traversal meets them.
    closed spec fn view(&self) -> Seq<usize> {
        in_order(self.root)
    }
}

impl BinTree {
    /// The nodes of the tree.
    pub closed spec fn shape(&self) -> Link {
        self.root
    }

    /// The node count that the tree keeps agrees with its nodes.
    pub closed spec fn counted(&self) -> bool {
        self.size == keys(self.root).len()
    }

    /// The tree is an ordered search tree.
    pub open spec fn wf(&self) -> bool {
        self.counted() && ordered(self.shape())
    }

    pub fn new() -> (tree: Self)
        ensures
            tree.wf(),
            tree@ =~= Seq::<usize>::empty(),
            tree@.to_multiset() =~= Multiset::<usize>::empty(),
            tree.shape().is_none(),
    {
        proof {
            lemma_in_order(None);
        }
        BinTree { root: None, size: 0 }
    }

    /// The view is the traversal of the nodes and holds their keys.
    pub proof fn lemma_view(&self)
        ensures
            self@ == in_order(self.shape()),
            self@.to_multiset() =~= keys(self.shape()),
            self@.len() == keys(self.shape()).len(),
            self@.len() == 0 <==> self.shape().is_none(),
    {
        lemma_in_order(self.root);
    }

    /// The traversal of a well-formed tree never steps down: each key is at
    /// least the one before it.
    pub proof fn lemma_sorted(&self)
        requires
            self.wf(),
        ensures
            sorted(self@),
    {
        lemma_in_order(self.root);
    }

    /// The number of nodes on the longest path from the root to an absent
    /// child; zero for the empty tree.
    pub fn height(&self) -> (h: usize)
        requires
            self.wf(),
        ensures
            h == height(self.shape()),
    {
        proof {
            lemma_height_le_len(self.root);
        }
        match &self.root {
            None => 0,
            Some(root) => root.measure_height(),
        }
    }

    /// The height of the tree, measured level by level: the nodes wait in a
    /// queue with their level, and each node taken from it queues its
    /// children for the next level.
    pub fn height2(&self) -> (h: usize)
        requires
            self.wf(),
        ensures
            h == height(self.shape()),
    {
        proof {
            lemma_height_le_len(self.root);
        }
        match &self.root {
            None => 0,
            Some(root) => {
                let ghost goal = height(self.root);
                let mut max_height: usize = 1;
                let mut queue: VecDeque<(usize, &Node)> = VecDeque::new();
                proof {
                    lemma_queued(queue@, (1usize, &**root));
                }
                queue.push_back((1, &**root));
                while queue.len() > 0
                    invariant
                        goal <= usize::MAX,
                        1 <= max_height <= goal,
                        goal == if max_height >= reach(queue@) {
                            max_height as nat
                        } else {
                            reach(queue@)
                        },
                        forall|i: int|
                            0 <= i < queue@.len() ==> 1 <= (#[trigger] queue@[i]).0 && floor_of(
                                queue@[i],
                            ) <= goal,
                    decreases load(queue@),
                {
                    let ghost waiting = queue@;
                    let (level, node) = queue.pop_front().unwrap();
                    proof {
                        assert(queue@ =~= waiting.drop_first());
                        assert(waiting.first() == (level, node));
                        assert(floor_of(waiting[0]) <= goal);
                        reveal_with_fuel(height, 2);
                        reveal_with_fuel(keys, 2);
                    }
                    if level > max_height {
                        max_height = level;
                    }
                    if let Some(left) = &node.left {
                        proof {
                            lemma_queued(queue@, ((level + 1) as usize, &**left));
                        }
                        queue.push_back((level + 1, &**left));
                    }
                    if let Some(right) = &node.right {
                        proof {
                            lemma_queued(queue@, ((level + 1) as usize, &**right));
                        }
                        queue.push_back((level + 1, &**right));
                    }
                }
                max_height
            },
        }
    }

    /// The number of keys in the tree.
    pub fn len(&self) -> (n: usize)
        requires
            self.wf(),
        ensures
            n == self@.len(),
    {
        proof {
            lemma_in_order(self.root);
        }
        self.size
    }

    /// The root node, if the tree has one.
    pub fn root(&self) -> (r: Option<&Node>)
        ensures
            r.is_some() == self.shape().is_some(),
            r.is_some() ==> *r.unwrap() == *self.shape().unwrap(),
    {
        match &self.root {
            None => None,
            Some(root) => Some(&**root),
        }
    }

    /// The picture of the tree, one line per node; `Empty tree` for a tree
    /// without nodes.
    pub fn render(&self) -> (s: String)
        ensures
            s@ =~= match self.shape() {
                None => "Empty tree"@,
                Some(_) => drawn(self.shape(), Seq::empty()),
            },
    {
        match &self.root {
            None => String::from_str("Empty tree"),
            Some(root) => {
                let mut s = String::new();
                root.print_node(&mut s, String::new());
                s
            },
        }
    }

    /// The keys of the tree in traversal order.
    pub fn in_order(&self) -> (v: Vec<usize>)
        ensures
            v@ == self@,
    {
        let mut v = Vec::new();
        if let Some(root) = &self.root {
            root.collect(&mut v);
        }
        v
    }

    /// Adds `val` to the tree, beside any equal keys already there, as a leaf
    /// where the descent from the root ends: it turns left at larger keys and
    /// right at all others. No other node moves. The descent compares `val`
    /// with each node it passes and reads the link to each; attaching the
    /// leaf is one write.
    pub fn insert(&mut self, val: usize, stats: &mut Stats)
        requires
            old(self).wf(),
            old(self)@.len() < usize::MAX,
        ensures
            final(self).wf(),
            final(self).shape() == inserted(old(self).shape(), val),
            final(self)@.to_multiset() =~= old(self)@.to_multiset().insert(val),
            final(self)@.len() == old(self)@.len() + 1,
            height(old(self).shape()) <= height(final(self).shape()) <= height(old(self).shape())
                + 1,
            final(stats).charged(*old(stats), insert_cost(old(self).shape(), val)),
    {
        proof {
            reveal(Stats::charged);
        }
        let ghost before = self.root;
        let ghost stats0 = *stats;
        proof {
            lemma_in_order(before);
            lemma_inserted(before, val);
            lemma_in_order(inserted(before, val));
        }
        let mut root = self.root.take();
        if root.is_none() {
            stats.swap();
            root = Some(Node::new_pointer(val));
        } else {
            stats.read();
            let mut cur = &mut root;
            let ghost mut path: Seq<Step> = Seq::empty();
            loop
                invariant_except_break
                    cur.is_some(),
                    inserted(before, val) == plug(path, inserted(*cur, val)),
                    insert_path_len(before, val) == path.len() + insert_path_len(*cur, val),
                    stats.charged(stats0, cost(path.len(), path.len() + 1, 0)),
                invariant
                    after_borrow(root) == plug(path, *final(cur)),
                ensures
                    inserted(before, val) == plug(path, *cur),
                    stats.charged(stats0, insert_cost(before, val)),
                decreases *cur,
            {
                proof {
                    reveal(Stats::charged);
                    reveal_with_fuel(inserted, 2);
                    reveal_with_fuel(insert_path_len, 2);
                }
                match cur {
                    Some(node) => {
                        stats.comp();
                        if val < node.val {
                            if node.left.is_none() {
                                stats.swap();
                                node.left = Some(Node::new_pointer(val));
                                break;
                            }
                            proof {
                                let step = Step {
                                    val: node.val,
                                    side: Direction::Left,
                                    other: node.right,
                                };
                                assert(path.push(step).drop_last() =~= path);
                                path = path.push(step);
                            }
                            stats.read();
                            cur = &mut node.left;
                        } else {
                            if node.right.is_none() {
                                stats.swap();
                                node.right = Some(Node::new_pointer(val));
                                break;
                            }
                            proof {
                                let step = Step {
                                    val: node.val,
                                    side: Direction::Right,
                                    other: node.left,
                                };
                                assert(path.push(step).drop_last() =~= path);
                                path = path.push(step);
                            }
                            stats.read();
                            cur = &mut node.right;
                        }
                    },
                    None => {},
                }
            }
        }
        self.root = root;
        self.size = self.size + 1;
    }

    /// Removes the first node holding `val` that a search from the root
    /// meets, if there is one, and returns whether it did. A leaf is cut off;
    /// a node with one child gives way to that child; a node with two
    /// children gives way to the least node of its right subtree, which takes
    /// over both of its subtrees. A tree without the key is left as it was.
    pub fn delete(&mut self, val: usize, stats: &mut Stats) -> (removed: bool)
        requires
            old(self).wf(),
        ensures
            final(self).wf(),
            removed == old(self)@.contains(val),
            removed == (old(self)@.to_multiset().count(val) > 0),
            final(self).shape() == deleted(old(self).shape(), val),
            final(self)@.to_multiset() =~= old(self)@.to_multiset().remove(val),
            removed ==> final(self)@.len() + 1 == old(self)@.len(),
            !removed ==> final(self).shape() == old(self).shape(),
            height(final(self).shape()) <= height(old(self).shape()),
            final(stats).charged(*old(stats), delete_cost(old(self).shape(), val)),
    {
        proof {
            reveal(Stats::charged);
        }
        let ghost before = self.root;
        let ghost stats0 = *stats;
        proof {
            lemma_in_order(before);
            lemma_deleted(before, val);
            lemma_in_order(deleted(before, val));
            vstd::seq_lib::to_multiset_contains(in_order(before), val);
        }
        let mut root = self.root.take();
        let mut cur = &mut root;
        let ghost mut path: Seq<Step> = Seq::empty();
        let mut removed = false;
        let ghost mut spent = cost(0, 1, 0);
        stats.read();
        loop
            invariant_except_break
                deleted(before, val) == plug(path, deleted(*cur, val)),
                delete_cost(before, val) == spent.plus(search_cost(*cur, val)),
                stats.charged(stats0, spent),
                ordered(*cur),
                keys(before).count(val) == keys(*cur).count(val),
                !removed,
            invariant
                after_borrow(root) == plug(path, *final(cur)),
            ensures
                deleted(before, val) == plug(path, *cur),
                stats.charged(stats0, delete_cost(before, val)),
                removed == (keys(before).count(val) > 0),
            decreases *cur,
        {
            proof {
                reveal(Stats::charged);
            }
            if cur.is_none() {
                break;
            }
            stats.comp();
            let here: usize = cur.as_ref().unwrap().val;
            if val == here {
                let node = cur.take().unwrap();
                let new = get_replacement(node, stats);
                stats.swap();
                *cur = new;
                removed = true;
                break;
            }
            match cur {
                Some(node) => {
                    if val < node.val {
                        proof {
                            let step = Step {
                                val: node.val,
                                side: Direction::Left,
                                other: node.right,
                            };
                            assert(path.push(step).drop_last() =~= path);
                            path = path.push(step);
                            assert(keys(node.right).count(val) == 0);
                            spent = spent.plus(cost(1, 1, 0));
                        }
                        stats.read();
                        cur = &mut node.left;
                    } else {
                        proof {
                            let step = Step {
                                val: node.val,
                                side: Direction::Right,
                                other: node.left,
                            };
                            assert(path.push(step).drop_last() =~= path);
                            path = path.push(step);
                            assert(keys(node.left).count(val) == 0);
                            spent = spent.plus(cost(1, 1, 0));
                        }
                        stats.read();
                        cur = &mut node.right;
                    }
                },
                None => {},
            }
        }
        self.root = root;
        if removed {
            self.size = self.size - 1;
        }
        removed
    }
}

/// Takes `node` out of its subtree and returns what stands in its place:
/// nothing for a leaf, the only child if there is one, and else the least
/// node of the right subtree with both subtrees of `node` below it.
pub fn get_replacement(node: Box<Node>, stats: &mut Stats) -> (new: Link)
    ensures
        new == replacement(*node),
        final(stats).charged(*old(stats), replacement_cost(*node)),
{
    proof {
        reveal(Stats::charged);
    }
    let mut node = node;
    stats.read();
    let left = node.left.take();
    stats.read();
    let right = node.right.take();
    match (left, right) {
        (None, None) => None,
        (Some(left), None) => {
            stats.swap();
            Some(left)
        },
        (None, Some(right)) => {
            stats.swap();
            Some(right)
        },
        (Some(left), Some(right)) => {
            let (rest, replacement) = min_from(right, stats);
            let mut replacement = replacement;
            stats.swap();
            replacement.left = Some(left);
            stats.swap();
            replacement.right = rest;
            Some(replacement)
        },
    }
}

/// Detaches the leftmost node below `start`, whose right subtree takes its
/// place. Returns what is left of the subtree and the detached node without
/// children.
pub fn min_from(start: Box<Node>, stats: &mut Stats) -> (res: (Link, Box<Node>))
    ensures
        res.0 == without_min(*start),
        *res.1 == (Node { val: min_key(*start), left: None, right: None }),
        final(stats).charged(*old(stats), min_cost(*start)),
{
    proof {
        reveal(Stats::charged);
    }
    let ghost stats0 = *stats;
    let ghost before = *start;
    let mut root = Some(start);
    let mut cur = &mut root;
    let ghost mut path: Seq<Step> = Seq::empty();
    let ghost mut spent = cost(0, 0, 0);
    loop
        invariant_except_break
            stats.charged(stats0, spent),
            min_cost(before) == spent.plus(min_cost(*cur.unwrap())),
        invariant
            cur.is_some(),
            without_min(before) == plug(path, without_min(*cur.unwrap())),
            min_key(before) == min_key(*cur.unwrap()),
            after_borrow(root) == plug(path, *final(cur)),
        ensures
            cur.unwrap().left.is_none(),
            stats.charged(stats0, spent.plus(cost(0, 1, 0))),
            min_cost(before) == spent.plus(cost(0, 1, 1)),
        decreases *cur,
    {
        proof {
            reveal(Stats::charged);
        }
        stats.read();
        if cur.as_ref().unwrap().left.is_none() {
            break;
        }
        match cur {
            Some(node) => {
                proof {
                    let step = Step { val: node.val, side: Direction::Left, other: node.right };
                    assert(path.push(step).drop_last() =~= path);
                    path = path.push(step);
                    spent = spent.plus(cost(0, 1, 0));
                }
                cur = &mut node.left;
            },
            None => {},
        }
    }
    let mut min = cur.take().unwrap();
    stats.swap();
    *cur = min.right.take();
    (root, min)
}


} // verus!
