//! Nodes of the unbalanced search tree, and what it means for linked nodes to
//! be ordered.

use vstd::prelude::*;
use vstd::multiset::Multiset;
use vstd::seq_lib::{to_multiset_contains, to_multiset_len};
use vstd::string::StringExecFns;
use crate::experiment::{Cost, cost};
use crate::order::{lemma_join_multiset, lemma_sorted_join, sorted};
use crate::road::{decimal, key_text, line_start, start_line};

verus! {

/// The side of a node on which a child hangs.
#[derive(Clone, Copy, Debug)]
pub enum Direction {
    Left,
    Right,
}

/// A node owns its two subtrees. There is no link back to the parent: the way
/// up is the return path of the descent that reached the node.
pub struct Node {
    pub val: usize,
    pub left: Option<Box<Node>>,
    pub right: Option<Box<Node>>,
}

/// A subtree, or its absence.
pub type Link = Option<Box<Node>>;

/// The keys held below a link, with their multiplicities.
pub open spec fn keys(t: Link) -> Multiset<usize>
    decreases t,
{
    match t {
        None => Multiset::empty(),
        Some(n) => keys(n.left).add(keys(n.right)).insert(n.val),
    }
}

/// The keys below a link as a left-to-right traversal meets them.
pub open spec fn in_order(t: Link) -> Seq<usize>
    decreases t,
{
    match t {
        None => Seq::empty(),
        Some(n) => in_order(n.left).push(n.val) + in_order(n.right),
    }
}

/// Search-tree ordering: every key in a left subtree is below the node's key
/// and no key in a right subtree is.
pub open spec fn ordered(t: Link) -> bool
    decreases t,
{
    match t {
        None => true,
        Some(n) => {
            &&& ordered(n.left)
            &&& ordered(n.right)
            &&& forall|k: usize| #[trigger] keys(n.left).count(k) > 0 ==> k < n.val
            &&& forall|k: usize| #[trigger] keys(n.right).count(k) > 0 ==> n.val <= k
        },
    }
}

/// The number of nodes on the longest path from the link down to an absent child.
pub open spec fn height(t: Link) -> nat
    decreases t,
{
    match t {
        None => 0,
        Some(n) => {
            let l = height(n.left);
            let r = height(n.right);
            if l >= r {
                l + 1
            } else {
                r + 1
            }
        },
    }
}

/// The subtree with `val` added as a leaf where the descent ends: it turns
/// left at larger keys and right at all others.
pub open spec fn inserted(t: Link, val: usize) -> Link
    decreases t,
{
    match t {
        None => Some(Box::new(Node { val, left: None, right: None })),
        Some(n) => if val < n.val {
            Some(Box::new(Node { val: n.val, left: inserted(n.left, val), right: n.right }))
        } else {
            Some(Box::new(Node { val: n.val, left: n.left, right: inserted(n.right, val) }))
        },
    }
}

/// The number of nodes that a descent towards the place of a new key `val`
/// passes.
pub open spec fn insert_path_len(t: Link, val: usize) -> nat
    decreases t,
{
    match t {
        None => 0,
        Some(n) => 1 + insert_path_len(
            if val < n.val {
                n.left
            } else {
                n.right
            },
            val,
        ),
    }
}

/// The key of the leftmost node below `n`, which is its least.
pub open spec fn min_key(n: Node) -> usize
    decreases n,
{
    match n.left {
        None => n.val,
        Some(l) => min_key(*l),
    }
}

/// The subtree at `n` without its leftmost node, whose right subtree takes
/// its place.
pub open spec fn without_min(n: Node) -> Link
    decreases n,
{
    match n.left {
        None => n.right,
        Some(l) => Some(Box::new(Node { val: n.val, left: without_min(*l), right: n.right })),
    }
}

/// What stands in the place of `n` once it is taken out: nothing for a leaf,
/// the only child if there is one, and else the least node of the right
/// subtree, with both subtrees of `n` below it.
pub open spec fn replacement(n: Node) -> Link {
    match (n.left, n.right) {
        (None, None) => None,
        (Some(l), None) => Some(l),
        (None, Some(r)) => Some(r),
        (Some(l), Some(r)) => Some(
            Box::new(Node { val: min_key(*r), left: Some(l), right: without_min(*r) }),
        ),
    }
}

/// The subtree without the first node holding `val` that a search meets; the
/// subtree itself if the search meets none.
pub open spec fn deleted(t: Link, val: usize) -> Link
    decreases t,
{
    match t {
        None => None,
        Some(n) => if val < n.val {
            Some(Box::new(Node { val: n.val, left: deleted(n.left, val), right: n.right }))
        } else if val > n.val {
            Some(Box::new(Node { val: n.val, left: n.left, right: deleted(n.right, val) }))
        } else {
            replacement(*n)
        },
    }
}

/// The number of nodes that a search for `val` passes, the node at which it
/// ends included.
pub open spec fn search_path_len(t: Link, val: usize) -> nat
    decreases t,
{
    match t {
        None => 0,
        Some(n) => 1 + if val < n.val {
            search_path_len(n.left, val)
        } else if val > n.val {
            search_path_len(n.right, val)
        } else {
            0
        },
    }
}

/// What it costs to put `val` into the tree: one comparison and one read of
/// a link for each node that the descent passes, and one write for the leaf.
pub open spec fn insert_cost(t: Link, val: usize) -> Cost {
    cost(insert_path_len(t, val), insert_path_len(t, val), 1)
}

/// What it costs to detach the leftmost node below `n`: one read for each
/// node down to it, and one write.
pub open spec fn min_cost(n: Node) -> Cost
    decreases n,
{
    match n.left {
        None => cost(0, 1, 1),
        Some(l) => cost(0, 1, 0).plus(min_cost(*l)),
    }
}

/// What it costs to take `n` out of its place: two reads for its links, no
/// write for a leaf, one for bringing up an only child, and else the cost of
/// detaching the least node of the right subtree and two writes to hang the
/// subtrees of `n` below it.
pub open spec fn replacement_cost(n: Node) -> Cost {
    match (n.left, n.right) {
        (None, None) => cost(0, 2, 0),
        (Some(_), None) => cost(0, 2, 1),
        (None, Some(_)) => cost(0, 2, 1),
        (Some(_), Some(r)) => cost(0, 2, 2).plus(min_cost(*r)),
    }
}

/// What the search for `val` below a link and the removal of the node found
/// cost: one comparison for each node passed, one read for each link
/// followed, the cost of taking out the node found, and one write to put
/// what stands in its place into the link.
pub open spec fn search_cost(t: Link, val: usize) -> Cost
    decreases t,
{
    match t {
        None => cost(0, 0, 0),
        Some(n) => if val < n.val {
            cost(1, 1, 0).plus(search_cost(n.left, val))
        } else if val > n.val {
            cost(1, 1, 0).plus(search_cost(n.right, val))
        } else {
            cost(1, 0, 1).plus(replacement_cost(*n))
        },
    }
}

/// What it costs to delete `val` from the tree: one read for the root link,
/// the search, and the removal of the node found.
pub open spec fn delete_cost(t: Link, val: usize) -> Cost {
    cost(0, 1, 0).plus(search_cost(t, val))
}

/// A deletion compares once for each node that the search passes.
pub proof fn lemma_delete_comps(t: Link, val: usize)
    ensures
        search_cost(t, val).comps == search_path_len(t, val),
    decreases t,
{
    match t {
        None => {},
        Some(n) => {
            if val < n.val {
                lemma_delete_comps(n.left, val);
            } else if val > n.val {
                lemma_delete_comps(n.right, val);
            } else {
                assert(replacement_cost(*n).comps == 0) by {
                    if n.left.is_some() && n.right.is_some() {
                        lemma_min_comps(*n.right.unwrap());
                    }
                }
            }
        },
    }
}

/// Detaching the leftmost node compares no keys.
pub proof fn lemma_min_comps(n: Node)
    ensures
        min_cost(n).comps == 0,
    decreases n,
{
    match n.left {
        None => {},
        Some(l) => {
            lemma_min_comps(*l);
        },
    }
}

/// A left-to-right traversal meets exactly the keys below the link, and
/// meets them in non-decreasing order if the subtree is ordered.
pub proof fn lemma_in_order(t: Link)
    ensures
        in_order(t).to_multiset() =~= keys(t),
        in_order(t).len() == keys(t).len(),
        ordered(t) ==> sorted(in_order(t)),
    decreases t,
{
    to_multiset_len(in_order(t));
    match t {
        None => {
            assert(in_order(t).to_multiset().len() == 0);
        },
        Some(n) => {
            let a = in_order(n.left);
            let b = in_order(n.right);
            lemma_in_order(n.left);
            lemma_in_order(n.right);
            lemma_join_multiset(a, n.val, b);
            if ordered(t) {
                assert forall|i: int| 0 <= i < a.len() implies a[i] <= n.val by {
                    assert(a.contains(a[i]));
                    to_multiset_contains(a, a[i]);
                    assert(keys(n.left).count(a[i]) > 0);
                }
                assert forall|i: int| 0 <= i < b.len() implies n.val <= b[i] by {
                    assert(b.contains(b[i]));
                    to_multiset_contains(b, b[i]);
                    assert(keys(n.right).count(b[i]) > 0);
                }
                lemma_sorted_join(a, n.val, b);
            }
        },
    }
}

/// A subtree is no higher than it has nodes.
pub proof fn lemma_height_le_len(t: Link)
    ensures
        height(t) <= keys(t).len(),
    decreases t,
{
    match t {
        None => {},
        Some(n) => {
            lemma_height_le_len(n.left);
            lemma_height_le_len(n.right);
        },
    }
}

/// Adding a key keeps the ordering, adds the key to those held, and makes
/// the subtree at most one node higher.
pub proof fn lemma_inserted(t: Link, val: usize)
    ensures
        keys(inserted(t, val)) =~= keys(t).insert(val),
        ordered(t) ==> ordered(inserted(t, val)),
        height(t) <= height(inserted(t, val)) <= height(t) + 1,
    decreases t,
{
    reveal_with_fuel(keys, 2);
    reveal_with_fuel(ordered, 2);
    reveal_with_fuel(height, 2);
    match t {
        None => {},
        Some(n) => {
            if val < n.val {
                lemma_inserted(n.left, val);
                if ordered(t) {
                    assert forall|k: usize| keys(inserted(n.left, val)).count(k) > 0 implies k
                        < n.val by {
                        if k != val {
                            assert(keys(n.left).count(k) > 0);
                        }
                    }
                }
            } else {
                lemma_inserted(n.right, val);
                if ordered(t) {
                    assert forall|k: usize| keys(inserted(n.right, val)).count(k) > 0 implies n.val
                        <= k by {
                        if k != val {
                            assert(keys(n.right).count(k) > 0);
                        }
                    }
                }
            }
        },
    }
}

/// Taking the leftmost node out of an ordered subtree takes its least key
/// out, keeps the ordering and does not make the subtree higher.
pub proof fn lemma_without_min(n: Node)
    ensures
        keys(without_min(n)).insert(min_key(n)) =~= keys(Some(Box::new(n))),
        ordered(Some(Box::new(n))) ==> {
            &&& ordered(without_min(n))
            &&& forall|k: usize| #[trigger]
                keys(Some(Box::new(n))).count(k) > 0 ==> min_key(n) <= k
        },
        height(without_min(n)) <= height(Some(Box::new(n))),
    decreases n,
{
    reveal_with_fuel(keys, 2);
    reveal_with_fuel(ordered, 2);
    reveal_with_fuel(height, 2);
    match n.left {
        None => {},
        Some(l) => {
            lemma_without_min(*l);
            if ordered(Some(Box::new(n))) {
                assert(keys(n.left).count(min_key(*l)) > 0);
                assert forall|k: usize| keys(without_min(*l)).count(k) > 0 implies k < n.val by {
                    assert(keys(n.left).count(k) > 0);
                }
                assert forall|k: usize| #[trigger]
                    keys(Some(Box::new(n))).count(k) > 0 implies min_key(n) <= k by {
                    if keys(n.left).count(k) > 0 {
                    } else if keys(n.right).count(k) > 0 {
                    } else {
                    }
                }
            }
        },
    }
}

/// Taking a node out of an ordered subtree takes one occurrence of its key
/// out, keeps the ordering and does not make the subtree higher.
pub proof fn lemma_replacement(n: Node)
    ensures
        keys(replacement(n)) =~= keys(Some(Box::new(n))).remove(n.val),
        ordered(Some(Box::new(n))) ==> ordered(replacement(n)),
        height(replacement(n)) <= height(Some(Box::new(n))),
{
    reveal_with_fuel(keys, 2);
    reveal_with_fuel(ordered, 2);
    reveal_with_fuel(height, 2);
    match (n.left, n.right) {
        (Some(l), Some(r)) => {
            lemma_without_min(*r);
            if ordered(Some(Box::new(n))) {
                assert(keys(n.right).count(min_key(*r)) > 0);
                assert forall|k: usize| keys(without_min(*r)).count(k) > 0 implies min_key(*r)
                    <= k by {
                    assert(keys(n.right).count(k) > 0);
                }
                assert forall|k: usize| keys(n.left).count(k) > 0 implies k < min_key(*r) by {}
            }
        },
        _ => {},
    }
}

/// Deleting a key from an ordered subtree takes one occurrence of it out if
/// there is one, keeps the ordering and does not make the subtree higher; a
/// key that is not held leaves the subtree as it is.
pub proof fn lemma_deleted(t: Link, val: usize)
    requires
        ordered(t),
    ensures
        keys(deleted(t, val)) =~= keys(t).remove(val),
        ordered(deleted(t, val)),
        height(deleted(t, val)) <= height(t),
        keys(t).count(val) == 0 ==> deleted(t, val) == t,
    decreases t,
{
    reveal_with_fuel(keys, 2);
    reveal_with_fuel(ordered, 2);
    reveal_with_fuel(height, 2);
    match t {
        None => {},
        Some(n) => {
            if val < n.val {
                lemma_deleted(n.left, val);
                assert forall|k: usize| keys(deleted(n.left, val)).count(k) > 0 implies k
                    < n.val by {
                    assert(keys(n.left).count(k) > 0);
                }
                assert(keys(n.right).count(val) == 0);
            } else if val > n.val {
                lemma_deleted(n.right, val);
                assert forall|k: usize| keys(deleted(n.right, val)).count(k) > 0 implies n.val
                    <= k by {
                    assert(keys(n.right).count(k) > 0);
                }
                assert(keys(n.left).count(val) == 0);
            } else {
                lemma_replacement(*n);
            }
        },
    }
}

/// The line of a node in the picture: the start of the line for its road,
/// its key in decimal, and a line break.
pub open spec fn line(n: Node, road: Seq<char>) -> Seq<char> {
    line_start(road) + decimal(n.val as nat) + "\n"@
}

/// The picture of a subtree whose root is reached by `road`: the tree lies on
/// its side, so the right subtree comes first, then the line of the node,
/// then the left subtree.
pub open spec fn drawn(t: Link, road: Seq<char>) -> Seq<char>
    decreases t,
{
    match t {
        None => Seq::empty(),
        Some(n) => drawn(n.right, road + "u"@) + line(*n, road) + drawn(n.left, road + "d"@),
    }
}

impl Node {
    /// A leaf.
    pub fn new(val: usize) -> (n: Self)
        ensures
            n == (Node { val, left: None, right: None }),
    {
        Node { val, left: None, right: None }
    }

    /// A freshly allocated leaf.
    pub fn new_pointer(val: usize) -> (p: Box<Node>)
        ensures
            *p == (Node { val, left: None, right: None }),
    {
        Box::new(Node::new(val))
    }

    pub fn val(&self) -> (v: &usize)
        ensures
            *v == self.val,
    {
        &self.val
    }

    /// The height of the subtree at this node: one more than that of its
    /// higher child, an absent child counting as zero.
    pub fn measure_height(&self) -> (h: usize)
        requires
            height(Some(Box::new(*self))) <= usize::MAX,
        ensures
            h == height(Some(Box::new(*self))),
        decreases *self,
    {
        proof {
            reveal_with_fuel(height, 2);
        }
        let left_height: usize = match &self.left {
            Some(left) => left.measure_height(),
            None => 0,
        };
        let right_height: usize = match &self.right {
            Some(right) => right.measure_height(),
            None => 0,
        };
        if left_height >= right_height {
            1 + left_height
        } else {
            1 + right_height
        }
    }

    /// Appends the keys at and below this node to `out`, in traversal order.
    pub fn collect(&self, out: &mut Vec<usize>)
        ensures
            final(out)@ =~= old(out)@ + in_order(Some(Box::new(*self))),
        decreases *self,
    {
        proof {
            reveal_with_fuel(in_order, 2);
        }
        if let Some(left) = &self.left {
            left.collect(out);
        }
        out.push(self.val);
        if let Some(right) = &self.right {
            right.collect(out);
        }
    }

    /// Appends the picture of the subtree at this node, reached by `road`, to
    /// `out`.
    pub fn print_node(&self, out: &mut String, road: String)
        ensures
            final(out)@ == old(out)@ + drawn(Some(Box::new(*self)), road@),
        decreases *self,
    {
        let ghost before = out@;
        let ghost above = drawn(self.right, road@ + "u"@);
        let ghost below = drawn(self.left, road@ + "d"@);
        let ghost here = line(*self, road@);
        proof {
            assert(drawn(Some(Box::new(*self)), road@) == above + here + below);
            assert(before + (above + here + below) =~= before + above + here + below);
        }
        match &self.right {
            Some(right) => {
                let mut up = road.clone();
                up.append("u");
                right.print_node(out, up);
            },
            None => {
                assert(before + above =~= before);
            },
        }
        assert(out@ == before + above);
        let start = start_line(road.as_str());
        let text = key_text(self.val);
        let mut row = start;
        row.append(text.as_str());
        row.append("\n");
        assert(row@ =~= here);
        out.append(row.as_str());
        match &self.left {
            Some(left) => {
                let mut down = road;
                down.append("d");
                left.print_node(out, down);
            },
            None => {
                assert(before + above + here + below =~= before + above + here);
            },
        }
    }
}

} // verus!
