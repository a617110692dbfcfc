//! Nodes of the red-black tree, and what it means for linked nodes to be
//! ordered and balanced.

use vstd::prelude::*;
use vstd::arithmetic::power2::{lemma_pow2_strictly_increases, lemma_pow2_unfold, pow2};
use vstd::multiset::Multiset;
use vstd::seq_lib::{to_multiset_contains, to_multiset_len};
use vstd::string::StringExecFns;
use crate::order::{lemma_join_multiset, lemma_sorted_join, sorted};
use crate::road::{decimal, key_text, line_start, start_line};

verus! {

/// The side of a node on which a child hangs.
#[derive(Clone, Copy, Debug)]
pub enum Direction {
    Left,
    Right,
}

#[derive(Clone, Copy, Debug, PartialEq, Eq, Structural)]
pub enum Color {
    Red,
    Black,
}

/// A node owns its two subtrees. There is no link back to the parent: the way
/// up is the return path of the descent that reached the node.
pub struct Node {
    pub val: usize,
    pub color: Color,
    pub left: Option<Box<Node>>,
    pub right: Option<Box<Node>>,
}

/// A subtree, or its absence.
pub type Link = Option<Box<Node>>;

/// The keys held below a link, with their multiplicities.
pub open spec fn keys(t: Link) -> Multiset<usize>
    decreases t,
{
    match t {
        None => Multiset::empty(),
        Some(n) => keys(n.left).add(keys(n.right)).insert(n.val),
    }
}

/// The keys below a link as a left-to-right traversal meets them.
pub open spec fn in_order(t: Link) -> Seq<usize>
    decreases t,
{
    match t {
        None => Seq::empty(),
        Some(n) => in_order(n.left).push(n.val) + in_order(n.right),
    }
}

/// Search-tree ordering: no key in a left subtree exceeds the node's key and
/// no key in a right subtree is below it.
pub open spec fn ordered(t: Link) -> bool
    decreases t,
{
    match t {
        None => true,
        Some(n) => {
            &&& ordered(n.left)
            &&& ordered(n.right)
            &&& forall|k: usize| #[trigger] keys(n.left).count(k) > 0 ==> k <= n.val
            &&& forall|k: usize| #[trigger] keys(n.right).count(k) > 0 ==> n.val <= k
        },
    }
}

/// The number of nodes that a descent towards the place of a new key `val`
/// passes: it turns left at larger keys and right at all others.
pub open spec fn insert_path_len(t: Link, val: usize) -> nat
    decreases t,
{
    match t {
        None => 0,
        Some(n) => 1 + insert_path_len(
            if val < n.val {
                n.left
            } else {
                n.right
            },
            val,
        ),
    }
}

/// The number of nodes that a search for `val` passes, the node at which it
/// ends included: it turns left at larger keys, right at smaller ones, and
/// ends at an equal key or an absent child.
pub open spec fn search_path_len(t: Link, val: usize) -> nat
    decreases t,
{
    match t {
        None => 0,
        Some(n) => 1 + if val < n.val {
            search_path_len(n.left, val)
        } else if val > n.val {
            search_path_len(n.right, val)
        } else {
            0
        },
    }
}

/// The number of nodes on the longest path from the link down to an absent child.
pub open spec fn height(t: Link) -> nat
    decreases t,
{
    match t {
        None => 0,
        Some(n) => {
            let l = height(n.left);
            let r = height(n.right);
            if l >= r {
                l + 1
            } else {
                r + 1
            }
        },
    }
}

/// The color a link counts as: an absent child is black.
pub open spec fn color_of(t: Link) -> Color {
    match t {
        None => Color::Black,
        Some(n) => n.color,
    }
}

/// The number of black nodes on the leftmost path below a link.
pub open spec fn black_height(t: Link) -> nat
    decreases t,
{
    match t {
        None => 0,
        Some(n) => black_height(n.left) + if n.color == Color::Black {
            1nat
        } else {
            0nat
        },
    }
}

/// Every path from the link to an absent child crosses the same number of
/// black nodes.
pub open spec fn balanced(t: Link) -> bool
    decreases t,
{
    match t {
        None => true,
        Some(n) => {
            &&& balanced(n.left)
            &&& balanced(n.right)
            &&& black_height(n.left) == black_height(n.right)
        },
    }
}

/// No red node below the link, nor the link's own node, has a red child.
pub open spec fn no_red_red(t: Link) -> bool
    decreases t,
{
    match t {
        None => true,
        Some(n) => {
            &&& no_red_red(n.left)
            &&& no_red_red(n.right)
            &&& (n.color == Color::Red ==> color_of(n.left) == Color::Black && color_of(n.right)
                == Color::Black)
        },
    }
}

/// An ordered subtree that meets both color rules.
pub open spec fn valid(t: Link) -> bool {
    ordered(t) && balanced(t) && no_red_red(t)
}

/// The node that stands in the place of `x` once its right child is promoted.
pub open spec fn rotated_left(x: Node) -> Node
    recommends
        x.right.is_some(),
{
    let y = x.right.unwrap();
    Node {
        val: y.val,
        color: y.color,
        left: Some(Box::new(Node { val: x.val, color: x.color, left: x.left, right: y.left })),
        right: y.right,
    }
}

/// The node that stands in the place of `x` once its left child is promoted.
pub open spec fn rotated_right(x: Node) -> Node
    recommends
        x.left.is_some(),
{
    let y = x.left.unwrap();
    Node {
        val: y.val,
        color: y.color,
        left: y.left,
        right: Some(Box::new(Node { val: x.val, color: x.color, left: y.right, right: x.right })),
    }
}

/// A left rotation keeps the keys, their traversal and the ordering.
pub proof fn lemma_rotated_left(x: Node)
    requires
        x.right.is_some(),
    ensures
        keys(Some(Box::new(rotated_left(x)))) =~= keys(Some(Box::new(x))),
        in_order(Some(Box::new(rotated_left(x)))) =~= in_order(Some(Box::new(x))),
        ordered(Some(Box::new(x))) ==> ordered(Some(Box::new(rotated_left(x)))),
{
    let y = x.right.unwrap();
    let r = rotated_left(x);
    assert(keys(Some(Box::new(x))) =~= keys(x.left).add(keys(x.right)).insert(x.val));
    assert(keys(x.right) =~= keys(y.left).add(keys(y.right)).insert(y.val));
    assert(keys(r.left) =~= keys(x.left).add(keys(y.left)).insert(x.val));
    assert(keys(Some(Box::new(r))) =~= keys(r.left).add(keys(y.right)).insert(y.val));
    assert(in_order(Some(Box::new(x))) =~= in_order(x.left).push(x.val) + in_order(x.right));
    assert(in_order(x.right) =~= in_order(y.left).push(y.val) + in_order(y.right));
    assert(in_order(r.left) =~= in_order(x.left).push(x.val) + in_order(y.left));
    assert(in_order(Some(Box::new(r))) =~= in_order(r.left).push(y.val) + in_order(y.right));
    if ordered(Some(Box::new(x))) {
        assert(ordered(x.left) && ordered(x.right));
        assert(ordered(y.left) && ordered(y.right));
        assert(keys(x.right).count(y.val) > 0);
        assert(x.val <= y.val);
        assert forall|k: usize| #[trigger] keys(y.left).count(k) > 0 implies x.val <= k by {
            assert(keys(x.right).count(k) > 0);
        }
        assert(ordered(r.left));
        assert forall|k: usize| #[trigger] keys(r.left).count(k) > 0 implies k <= y.val by {
            if keys(x.left).count(k) > 0 {
            } else if keys(y.left).count(k) > 0 {
            } else {
                assert(k == x.val);
            }
        }
        assert(ordered(Some(Box::new(r))));
    }
}

/// A right rotation keeps the keys, their traversal and the ordering.
pub proof fn lemma_rotated_right(x: Node)
    requires
        x.left.is_some(),
    ensures
        keys(Some(Box::new(rotated_right(x)))) =~= keys(Some(Box::new(x))),
        in_order(Some(Box::new(rotated_right(x)))) =~= in_order(Some(Box::new(x))),
        ordered(Some(Box::new(x))) ==> ordered(Some(Box::new(rotated_right(x)))),
{
    let y = x.left.unwrap();
    let r = rotated_right(x);
    assert(keys(Some(Box::new(x))) =~= keys(x.left).add(keys(x.right)).insert(x.val));
    assert(keys(x.left) =~= keys(y.left).add(keys(y.right)).insert(y.val));
    assert(keys(r.right) =~= keys(y.right).add(keys(x.right)).insert(x.val));
    assert(keys(Some(Box::new(r))) =~= keys(y.left).add(keys(r.right)).insert(y.val));
    assert(in_order(Some(Box::new(x))) =~= in_order(x.left).push(x.val) + in_order(x.right));
    assert(in_order(x.left) =~= in_order(y.left).push(y.val) + in_order(y.right));
    assert(in_order(r.right) =~= in_order(y.right).push(x.val) + in_order(x.right));
    assert(in_order(Some(Box::new(r))) =~= in_order(y.left).push(y.val) + in_order(r.right));
    if ordered(Some(Box::new(x))) {
        assert(ordered(x.right) && ordered(x.left));
        assert(ordered(y.right) && ordered(y.left));
        assert(keys(x.left).count(y.val) > 0);
        assert(y.val <= x.val);
        assert forall|k: usize| #[trigger] keys(y.right).count(k) > 0 implies k <= x.val by {
            assert(keys(x.left).count(k) > 0);
        }
        assert(ordered(r.right));
        assert forall|k: usize| #[trigger] keys(r.right).count(k) > 0 implies y.val <= k by {
            if keys(x.right).count(k) > 0 {
            } else if keys(y.right).count(k) > 0 {
            } else {
                assert(k == x.val);
            }
        }
        assert(ordered(Some(Box::new(r))));
    }
}

/// A red leaf holding `val`.
pub open spec fn leaf(val: usize) -> Node {
    Node { val, color: Color::Red, left: None, right: None }
}

/// No key below the link exceeds `v`.
pub open spec fn at_most(t: Link, v: usize) -> bool {
    forall|k: usize| #[trigger] keys(t).count(k) > 0 ==> k <= v
}

/// No key below the link is less than `v`.
pub open spec fn at_least(t: Link, v: usize) -> bool {
    forall|k: usize| #[trigger] keys(t).count(k) > 0 ==> v <= k
}

/// The node `n` in another color.
pub open spec fn painted(n: Node, c: Color) -> Node {
    Node { val: n.val, color: c, left: n.left, right: n.right }
}

/// Painting a node keeps its keys, their order and the balance below it. Its
/// black height counts the node if it is painted black, and it breaks no
/// color rule unless it is painted red above a red child.
pub proof fn lemma_painted(n: Node, c: Color)
    ensures
        keys(Some(Box::new(painted(n, c)))) =~= keys(Some(Box::new(n))),
        in_order(Some(Box::new(painted(n, c)))) =~= in_order(Some(Box::new(n))),
        ordered(Some(Box::new(painted(n, c)))) == ordered(Some(Box::new(n))),
        balanced(Some(Box::new(painted(n, c)))) == balanced(Some(Box::new(n))),
        black_height(Some(Box::new(painted(n, c)))) == black_height(n.left) + if c
            == Color::Black {
            1nat
        } else {
            0nat
        },
        no_red_red(Some(Box::new(painted(n, c)))) == (no_red_red(n.left) && no_red_red(n.right)
            && (c == Color::Red ==> color_of(n.left) == Color::Black && color_of(n.right)
            == Color::Black)),
{
}

/// A node whose subtrees hold the same keys as those of an ordered node with
/// the same key, and are ordered themselves, holds the same keys in order.
pub proof fn lemma_same_keys(a: Node, b: Node)
    requires
        a.val == b.val,
        keys(a.left) =~= keys(b.left),
        keys(a.right) =~= keys(b.right),
        ordered(Some(Box::new(a))),
        ordered(b.left),
        ordered(b.right),
    ensures
        keys(Some(Box::new(b))) =~= keys(Some(Box::new(a))),
        ordered(Some(Box::new(b))),
{
}

/// The subtrees of a valid node are valid, bounded by its key and of equal
/// black height, and black below a red node.
pub proof fn lemma_parts(n: Node)
    requires
        valid(Some(Box::new(n))),
    ensures
        valid(n.left),
        valid(n.right),
        at_most(n.left, n.val),
        at_least(n.right, n.val),
        keys(Some(Box::new(n))) =~= keys(n.left).add(keys(n.right)).insert(n.val),
        black_height(n.left) == black_height(n.right),
        black_height(Some(Box::new(n))) == black_height(n.left) + if n.color == Color::Black {
            1nat
        } else {
            0nat
        },
        n.color == Color::Red ==> color_of(n.left) == Color::Black && color_of(n.right)
            == Color::Black,
{
}

/// An absent child is a valid, black subtree of black height zero without keys.
pub proof fn lemma_absent()
    ensures
        valid(None),
        black_height(None) == 0,
        color_of(None) == Color::Black,
        keys(None) =~= Multiset::empty(),
{
}

/// A red leaf is a valid subtree of black height zero that holds its one key.
pub proof fn lemma_leaf(val: usize)
    ensures
        valid(Some(Box::new(leaf(val)))),
        black_height(Some(Box::new(leaf(val)))) == 0,
        keys(Some(Box::new(leaf(val)))) =~= Multiset::empty().insert(val),
{
    reveal_with_fuel(ordered, 2);
    reveal_with_fuel(keys, 2);
    reveal_with_fuel(balanced, 2);
    reveal_with_fuel(black_height, 2);
    reveal_with_fuel(no_red_red, 2);
}

/// A left-to-right traversal meets exactly the keys below the link, and
/// meets them in non-decreasing order if the subtree is ordered.
pub proof fn lemma_in_order(t: Link)
    ensures
        in_order(t).to_multiset() =~= keys(t),
        in_order(t).len() == keys(t).len(),
        ordered(t) ==> sorted(in_order(t)),
    decreases t,
{
    to_multiset_len(in_order(t));
    match t {
        None => {
            assert(in_order(t).to_multiset().len() == 0);
        },
        Some(n) => {
            let a = in_order(n.left);
            let b = in_order(n.right);
            lemma_in_order(n.left);
            lemma_in_order(n.right);
            lemma_join_multiset(a, n.val, b);
            if ordered(t) {
                assert forall|i: int| 0 <= i < a.len() implies a[i] <= n.val by {
                    assert(a.contains(a[i]));
                    to_multiset_contains(a, a[i]);
                    assert(keys(n.left).count(a[i]) > 0);
                }
                assert forall|i: int| 0 <= i < b.len() implies n.val <= b[i] by {
                    assert(b.contains(b[i]));
                    to_multiset_contains(b, b[i]);
                    assert(keys(n.right).count(b[i]) > 0);
                }
                lemma_sorted_join(a, n.val, b);
            }
        },
    }
}

/// A subtree is no higher than it has nodes.
pub proof fn lemma_height_le_len(t: Link)
    ensures
        height(t) <= keys(t).len(),
    decreases t,
{
    match t {
        None => {},
        Some(n) => {
            lemma_height_le_len(n.left);
            lemma_height_le_len(n.right);
        },
    }
}

/// In a subtree that meets both color rules, no path is longer than twice the
/// black height (and one more below a red root), and the black height is at
/// most the binary logarithm of the number of nodes plus one.
pub proof fn lemma_black_height_bounds(t: Link)
    requires
        balanced(t),
        no_red_red(t),
    ensures
        height(t) <= 2 * black_height(t) + if color_of(t) == Color::Red {
            1nat
        } else {
            0nat
        },
        pow2(black_height(t)) <= keys(t).len() + 1,
    decreases t,
{
    match t {
        None => {
            assert(pow2(0) == 1) by {
                lemma_pow2_unfold(1);
                vstd::arithmetic::power2::lemma2_to64();
            }
        },
        Some(n) => {
            lemma_black_height_bounds(n.left);
            lemma_black_height_bounds(n.right);
            if n.color == Color::Black {
                lemma_pow2_unfold(black_height(t));
            }
        },
    }
}

/// A red-black tree with `n` nodes and a black root is at most
/// `2 * log2(n + 1)` high: two to the power of half its height, rounded up,
/// does not exceed `n + 1`.
pub proof fn lemma_height_logarithmic(t: Link)
    requires
        balanced(t),
        no_red_red(t),
        color_of(t) == Color::Black,
    ensures
        pow2((height(t) + 1) / 2) <= keys(t).len() + 1,
{
    lemma_black_height_bounds(t);
    let half = (height(t) + 1) / 2;
    if half < black_height(t) {
        lemma_pow2_strictly_increases(half, black_height(t));
    }
}

/// The line of a node in the picture: the start of the line for its road,
/// its key in decimal, set in red for a red node, and a line break.
pub open spec fn line(n: Node, road: Seq<char>) -> Seq<char> {
    let key = if n.color == Color::Red {
        "\x1b[31m"@ + decimal(n.val as nat) + "\x1b[0m"@
    } else {
        decimal(n.val as nat)
    };
    line_start(road) + key + "\n"@
}

/// The picture of a subtree whose root is reached by `road`: the tree lies on
/// its side, so the right subtree comes first, then the line of the node,
/// then the left subtree.
pub open spec fn drawn(t: Link, road: Seq<char>) -> Seq<char>
    decreases t,
{
    match t {
        None => Seq::empty(),
        Some(n) => drawn(n.right, road + "u"@) + line(*n, road) + drawn(n.left, road + "d"@),
    }
}

/// The keys of a subtree as a descent lists them: the key of the node and a
/// blank, then the left subtree, then the right subtree, with a line break
/// in place of each absent child.
pub open spec fn road_text(t: Link) -> Seq<char>
    decreases t,
{
    match t {
        None => "\n"@,
        Some(n) => decimal(n.val as nat) + " "@ + road_text(n.left) + road_text(n.right),
    }
}

impl Node {
    /// A red leaf.
    pub fn new(val: usize) -> (n: Self)
        ensures
            n == leaf(val),
    {
        Node { val, color: Color::Red, left: None, right: None }
    }

    pub fn val(&self) -> (v: &usize)
        ensures
            *v == self.val,
    {
        &self.val
    }

    /// The height of the subtree at this node: one more than that of its
    /// higher child, an absent child counting as zero.
    pub fn measure_height(&self) -> (h: usize)
        requires
            height(Some(Box::new(*self))) <= usize::MAX,
        ensures
            h == height(Some(Box::new(*self))),
        decreases *self,
    {
        proof {
            reveal_with_fuel(height, 2);
        }
        let left_height: usize = match &self.left {
            Some(left) => left.measure_height(),
            None => 0,
        };
        let right_height: usize = match &self.right {
            Some(right) => right.measure_height(),
            None => 0,
        };
        if left_height >= right_height {
            1 + left_height
        } else {
            1 + right_height
        }
    }

    /// Appends the keys at and below this node to `out`, in traversal order.
    pub fn collect(&self, out: &mut Vec<usize>)
        ensures
            final(out)@ =~= old(out)@ + in_order(Some(Box::new(*self))),
        decreases *self,
    {
        proof {
            reveal_with_fuel(in_order, 2);
        }
        if let Some(left) = &self.left {
            left.collect(out);
        }
        out.push(self.val);
        if let Some(right) = &self.right {
            right.collect(out);
        }
    }

    /// Appends the picture of the subtree at this node, reached by `road`, to
    /// `out`.
    pub fn print_node(&self, out: &mut String, road: String)
        ensures
            final(out)@ == old(out)@ + drawn(Some(Box::new(*self)), road@),
        decreases *self,
    {
        let ghost before = out@;
        let ghost above = drawn(self.right, road@ + "u"@);
        let ghost below = drawn(self.left, road@ + "d"@);
        let ghost here = line(*self, road@);
        proof {
            assert(drawn(Some(Box::new(*self)), road@) == above + here + below);
            assert(before + (above + here + below) =~= before + above + here + below);
        }
        match &self.right {
            Some(right) => {
                let mut up = road.clone();
                up.append("u");
                right.print_node(out, up);
            },
            None => {
                assert(before + above =~= before);
            },
        }
        assert(out@ == before + above);
        let start = start_line(road.as_str());
        let text = key_text(self.val);
        let mut row = start;
        if self.color == Color::Red {
            row.append("\x1b[31m");
            row.append(text.as_str());
            row.append("\x1b[0m");
        } else {
            row.append(text.as_str());
        }
        row.append("\n");
        assert(row@ =~= here);
        out.append(row.as_str());
        match &self.left {
            Some(left) => {
                let mut down = road;
                down.append("d");
                left.print_node(out, down);
            },
            None => {
                assert(before + above + here + below =~= before + above + here);
            },
        }
    }

    /// Appends the keys at and below this node to `out` as a descent lists
    /// them.
    pub fn print_road(&self, out: &mut String)
        ensures
            final(out)@ == old(out)@ + road_text(Some(Box::new(*self))),
        decreases *self,
    {
        let ghost before = out@;
        let ghost head = decimal(self.val as nat) + " "@;
        let ghost first = road_text(self.left);
        let ghost second = road_text(self.right);
        proof {
            assert(road_text(Some(Box::new(*self))) == head + first + second);
            assert(before + (head + first + second) =~= before + head + first + second);
            assert(road_text(None) == "\n"@);
        }
        let mut text = key_text(self.val);
        text.append(" ");
        out.append(text.as_str());
        match &self.left {
            Some(left) => left.print_road(out),
            None => out.append("\n"),
        }
        match &self.right {
            Some(right) => right.print_road(out),
            None => out.append("\n"),
        }
    }
}

} // verus!
