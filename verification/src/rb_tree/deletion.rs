//! Deletion from a red-black subtree: taking a node out, and restoring the
//! black height where that left one side a black node short.
//!
//! The place that came up short may hold no node at all. It is known by the
//! node above it and the side on which it hangs: each removal returns, with
//! what is left of its subtree, whether that is one black node short, and
//! the caller, which holds the parent, repairs on the side it descended.

use vstd::prelude::*;
use crate::experiment::{Cost, Stats, cost, lemma_charged_twice};
use crate::rb_tree::node_pointer::color;
use crate::rb_tree::rotation::{left_rotate, paint, right_rotate, rotation_cost};
use crate::rb_tree::tree_node::{
    Color, Link, Node, at_least, at_most, balanced, black_height, color_of, keys, lemma_absent,
    lemma_painted, lemma_parts, lemma_rotated_left, lemma_rotated_right, lemma_same_keys,
    no_red_red, ordered, painted, rotated_left, rotated_right, search_path_len, valid,
};

verus! {

/// The repaired subtree `res.0` is valid and holds the keys of `p`; counting
/// the level it is still short of, if `res.1` says so, it has the black height
/// `owed`. Only below a black `p` is it short, and its root is black then.
pub open spec fn mended(res: (Node, bool), p: Node, owed: nat) -> bool {
    &&& valid(Some(Box::new(res.0)))
    &&& keys(Some(Box::new(res.0))) =~= keys(Some(Box::new(p)))
    &&& black_height(Some(Box::new(res.0))) + if res.1 {
        1nat
    } else {
        0nat
    } == owed
    &&& (res.1 ==> p.color == Color::Black)
    &&& (p.color == Color::Black ==> res.0.color == Color::Black)
}

/// The subtree at `p` with its left side one black node short: ordered, with
/// both sides balanced and within the color rules, a black left child, and no
/// red child below a red `p`.
pub open spec fn short_left(p: Node) -> bool {
    &&& ordered(Some(Box::new(p)))
    &&& balanced(p.left)
    &&& balanced(p.right)
    &&& black_height(p.left) + 1 == black_height(p.right)
    &&& no_red_red(p.left)
    &&& no_red_red(p.right)
    &&& color_of(p.left) == Color::Black
    &&& (p.color == Color::Red ==> color_of(p.right) == Color::Black)
}

/// The black height that the subtree at `p` should have, going by its right
/// side.
pub open spec fn owed_left(p: Node) -> nat {
    black_height(p.right) + if p.color == Color::Black {
        1nat
    } else {
        0nat
    }
}

/// The repair for a left side that is one black node short beside a black
/// right child `w`. With two black children `w` turns red and the shortage
/// moves up to `p`, which absorbs it if red. With a red far child, `w` takes
/// the color of `p`, `p` and the far child turn black, and `w` is rotated
/// above `p`; a red near child is first rotated above `w`, black above a red
/// `w`, which makes the former `w` the red far child.
pub open spec fn fixed_left_black(p: Node) -> (Node, bool) {
    let w = *p.right.unwrap();
    let near_red = color_of(w.left) == Color::Red;
    let far_red = color_of(w.right) == Color::Red;
    if !near_red && !far_red {
        (
            Node {
                val: p.val,
                color: Color::Black,
                left: p.left,
                right: Some(Box::new(painted(w, Color::Red))),
            },
            p.color == Color::Black,
        )
    } else {
        let w1 = if !far_red {
            rotated_right(
                Node {
                    val: w.val,
                    color: Color::Red,
                    left: Some(Box::new(painted(*w.left.unwrap(), Color::Black))),
                    right: w.right,
                },
            )
        } else {
            w
        };
        let w2 = Node {
            val: w1.val,
            color: p.color,
            left: w1.left,
            right: Some(Box::new(painted(*w1.right.unwrap(), Color::Black))),
        };
        (
            rotated_left(
                Node { val: p.val, color: Color::Black, left: p.left, right: Some(Box::new(w2)) },
            ),
            false,
        )
    }
}

/// The repair for a left side that is one black node short. A red right
/// child is first painted black and rotated above `p`, which turns red and has
/// a black right child from then on; the repair below it leaves nothing short.
pub open spec fn fixed_left(p: Node) -> (Node, bool) {
    if color_of(p.right) == Color::Red {
        let w = *p.right.unwrap();
        (
            Node {
                val: w.val,
                color: Color::Black,
                left: Some(Box::new(fixed_left_black(turned_left(p)).0)),
                right: w.right,
            },
            false,
        )
    } else {
        fixed_left_black(p)
    }
}

/// The node `p` as it stands, red, below its former red right child once
/// that is rotated above it: with the left subtree of that child on its
/// right.
pub open spec fn turned_left(p: Node) -> Node {
    Node { val: p.val, color: Color::Red, left: p.left, right: p.right.unwrap().left }
}

/// Beside a sibling with two black children, the repair on the left mends
/// the subtree or passes the shortage up.
pub proof fn lemma_fixed_left_recolor(p: Node)
    requires
        short_left(p),
        color_of(p.right) == Color::Black,
        p.right.is_some(),
        color_of(p.right.unwrap().left) == Color::Black,
        color_of(p.right.unwrap().right) == Color::Black,
    ensures
        mended(fixed_left_black(p), p, owed_left(p)),
{
    let w = *p.right.unwrap();
    let r = fixed_left_black(p).0;
    lemma_painted(w, Color::Red);
    assert(black_height(p.right) == black_height(w.left) + 1);
    assert(no_red_red(w.left) && no_red_red(w.right));
    assert(balanced(Some(Box::new(r))));
    assert(no_red_red(Some(Box::new(r))));
    lemma_same_keys(p, r);
}

/// Beside a sibling with a red far child, the repair on the left mends the
/// subtree.
pub proof fn lemma_fixed_left_far(p: Node)
    requires
        short_left(p),
        color_of(p.right) == Color::Black,
        p.right.is_some(),
        color_of(p.right.unwrap().right) == Color::Red,
    ensures
        mended(fixed_left_black(p), p, owed_left(p)),
        !fixed_left_black(p).1,
{
    let w = *p.right.unwrap();
    let far = *w.right.unwrap();
    let w2 = Node {
        val: w.val,
        color: p.color,
        left: w.left,
        right: Some(Box::new(painted(far, Color::Black))),
    };
    let q = Node { val: p.val, color: Color::Black, left: p.left, right: Some(Box::new(w2)) };
    let r = rotated_left(q);
    let inside = Node { val: p.val, color: Color::Black, left: p.left, right: w.left };
    assert(fixed_left_black(p).0 == r);
    assert(r.left == Some(Box::new(inside)));
    assert(r.right == Some(Box::new(painted(far, Color::Black))));
    // order
    assert(ordered(p.left) && ordered(p.right));
    assert(ordered(w.left) && ordered(w.right));
    lemma_painted(far, Color::Black);
    lemma_same_keys(w, w2);
    lemma_same_keys(p, q);
    lemma_rotated_left(q);
    // black heights
    assert(balanced(w.left) && balanced(w.right));
    assert(black_height(w.left) == black_height(w.right));
    assert(black_height(p.right) == black_height(w.left) + 1);
    assert(black_height(w.right) == black_height(far.left));
    assert(black_height(Some(Box::new(inside))) == black_height(p.left) + 1);
    assert(balanced(Some(Box::new(inside))));
    assert(balanced(Some(Box::new(r))));
    // colors
    assert(no_red_red(w.left) && no_red_red(w.right));
    assert(no_red_red(far.left) && no_red_red(far.right));
    assert(no_red_red(Some(Box::new(inside))));
    assert(no_red_red(Some(Box::new(r))));
}

/// Beside a sibling with a red near child and a black far child, the repair
/// on the left mends the subtree.
pub proof fn lemma_fixed_left_near(p: Node)
    requires
        short_left(p),
        color_of(p.right) == Color::Black,
        p.right.is_some(),
        color_of(p.right.unwrap().left) == Color::Red,
        color_of(p.right.unwrap().right) == Color::Black,
    ensures
        mended(fixed_left_black(p), p, owed_left(p)),
        !fixed_left_black(p).1,
{
    let w = *p.right.unwrap();
    let near = *w.left.unwrap();
    let wr = Node {
        val: w.val,
        color: Color::Red,
        left: Some(Box::new(painted(near, Color::Black))),
        right: w.right,
    };
    let w1 = rotated_right(wr);
    let outside = Node { val: w.val, color: Color::Red, left: near.right, right: w.right };
    assert(w1.right == Some(Box::new(outside)));
    let w2 = Node {
        val: w1.val,
        color: p.color,
        left: w1.left,
        right: Some(Box::new(painted(outside, Color::Black))),
    };
    let q = Node { val: p.val, color: Color::Black, left: p.left, right: Some(Box::new(w2)) };
    let r = rotated_left(q);
    let inside = Node { val: p.val, color: Color::Black, left: p.left, right: near.left };
    assert(fixed_left_black(p).0 == r);
    assert(r.left == Some(Box::new(inside)));
    assert(r.right == Some(Box::new(painted(outside, Color::Black))));
    // order
    assert(ordered(p.left) && ordered(p.right));
    assert(ordered(w.left) && ordered(w.right));
    lemma_painted(near, Color::Black);
    lemma_same_keys(w, wr);
    lemma_rotated_right(wr);
    assert(ordered(w1.left) && ordered(w1.right));
    lemma_painted(outside, Color::Black);
    lemma_same_keys(w1, w2);
    assert(keys(Some(Box::new(w2))) =~= keys(p.right));
    lemma_same_keys(p, q);
    lemma_rotated_left(q);
    // black heights
    assert(balanced(w.left) && balanced(w.right));
    assert(black_height(w.left) == black_height(w.right));
    assert(black_height(p.right) == black_height(w.left) + 1);
    assert(black_height(w.left) == black_height(near.left));
    assert(balanced(near.left) && balanced(near.right));
    assert(black_height(near.left) == black_height(near.right));
    assert(black_height(Some(Box::new(inside))) == black_height(p.left) + 1);
    assert(balanced(Some(Box::new(inside))));
    assert(black_height(Some(Box::new(painted(outside, Color::Black)))) == black_height(
        near.right,
    ) + 1);
    assert(balanced(Some(Box::new(outside))));
    assert(balanced(Some(Box::new(r))));
    // colors
    assert(no_red_red(w.left) && no_red_red(w.right));
    assert(no_red_red(near.left) && no_red_red(near.right));
    assert(no_red_red(Some(Box::new(inside))));
    assert(no_red_red(Some(Box::new(painted(outside, Color::Black)))));
    assert(no_red_red(Some(Box::new(r))));
}

/// Beside a black sibling, the repair on the left mends the subtree or
/// passes the shortage up; the sibling is there.
pub proof fn lemma_fixed_left_black(p: Node)
    requires
        short_left(p),
        color_of(p.right) == Color::Black,
    ensures
        p.right.is_some(),
        mended(fixed_left_black(p), p, owed_left(p)),
{
    lemma_absent();
    let w = *p.right.unwrap();
    if color_of(w.right) == Color::Red {
        lemma_fixed_left_far(p);
    } else if color_of(w.left) == Color::Red {
        lemma_fixed_left_near(p);
    } else {
        lemma_fixed_left_recolor(p);
    }
}

/// The repair on the left mends the subtree or passes the shortage up. The
/// right child is there, and a red one has a left child.
pub proof fn lemma_fixed_left(p: Node)
    requires
        short_left(p),
    ensures
        p.right.is_some(),
        color_of(p.right) == Color::Red ==> short_left(turned_left(p)) && color_of(
            turned_left(p).right,
        ) == Color::Black,
        mended(fixed_left(p), p, owed_left(p)),
{
    lemma_absent();
    if color_of(p.right) == Color::Red {
        let w = *p.right.unwrap();
        let q = Node {
            val: p.val,
            color: Color::Red,
            left: p.left,
            right: Some(Box::new(painted(w, Color::Black))),
        };
        let top = rotated_left(q);
        let inner = turned_left(p);
        assert(top.left == Some(Box::new(inner)));
        // order
        assert(ordered(p.left) && ordered(p.right));
        lemma_painted(w, Color::Black);
        lemma_same_keys(p, q);
        lemma_rotated_left(q);
        assert(ordered(top.left) && ordered(top.right));
        // the inner node is short on the left, beside a black sibling
        assert(balanced(w.left) && balanced(w.right));
        assert(black_height(w.left) == black_height(w.right));
        assert(black_height(p.right) == black_height(w.left));
        assert(no_red_red(w.left) && no_red_red(w.right));
        assert(short_left(inner));
        lemma_fixed_left_black(inner);
        let fixed = fixed_left_black(inner);
        let r = fixed_left(p).0;
        assert(r == Node {
            val: w.val,
            color: Color::Black,
            left: Some(Box::new(fixed.0)),
            right: w.right,
        });
        lemma_same_keys(top, r);
        assert(balanced(Some(Box::new(r))));
        assert(no_red_red(Some(Box::new(r))));
    } else {
        lemma_fixed_left_black(p);
    }
}

/// What the repair beside a black right child costs: three reads, for the
/// child and the colors of its children, and, unless both are black, a write
/// and one or two rotations.
pub open spec fn fixed_left_black_cost(p: Node) -> Cost {
    let w = *p.right.unwrap();
    let near_red = color_of(w.left) == Color::Red;
    let far_red = color_of(w.right) == Color::Red;
    if !near_red && !far_red {
        cost(0, 3, 0)
    } else if !far_red {
        cost(0, 3, 1).plus(rotation_cost()).plus(rotation_cost())
    } else {
        cost(0, 3, 1).plus(rotation_cost())
    }
}

/// Restores the black height below `p` when its left subtree is one black
/// node short and its right child is black.
pub fn delete_fixup_left_black(p: Box<Node>, stats: &mut Stats) -> (res: (Box<Node>, bool))
    requires
        short_left(*p),
        color_of(p.right) == Color::Black,
    ensures
        (*res.0, res.1) == fixed_left_black(*p),
        mended((*res.0, res.1), *p, owed_left(*p)),
        final(stats).charged(*old(stats), fixed_left_black_cost(*p)),
{
    proof {
        reveal(Stats::charged);
        lemma_fixed_left_black(*p);
    }
    let mut p = p;
    stats.read();
    let mut w = p.right.take().unwrap();
    stats.read();
    let near_red = color(&w.left) == Color::Red;
    stats.read();
    let far_red = color(&w.right) == Color::Red;
    if !near_red && !far_red {
        w.color = Color::Red;
        p.right = Some(w);
        let short = p.color == Color::Black;
        p.color = Color::Black;
        (p, short)
    } else {
        if !far_red {
            paint(&mut w.left, Color::Black);
            w.color = Color::Red;
            w = right_rotate(w, stats);
        }
        w.color = p.color;
        p.color = Color::Black;
        paint(&mut w.right, Color::Black);
        stats.swap();
        p.right = Some(w);
        (left_rotate(p, stats), false)
    }
}

/// What the repair on the left side costs: one read for the color of the
/// right child; below a red one a rotation and a write besides the repair
/// beside the black child that then stands in its place.
pub open spec fn fixed_left_cost(p: Node) -> Cost {
    if color_of(p.right) == Color::Red {
        cost(0, 1, 1).plus(rotation_cost()).plus(fixed_left_black_cost(turned_left(p)))
    } else {
        cost(0, 1, 0).plus(fixed_left_black_cost(p))
    }
}

/// Restores the black height below `p` when its left subtree is one black
/// node short. Returns the root of the repaired subtree and whether it is,
/// as a whole, still one black node short.
pub fn delete_fixup_left(p: Box<Node>, stats: &mut Stats) -> (res: (Box<Node>, bool))
    requires
        short_left(*p),
    ensures
        (*res.0, res.1) == fixed_left(*p),
        mended((*res.0, res.1), *p, owed_left(*p)),
        final(stats).charged(*old(stats), fixed_left_cost(*p)),
{
    proof {
        reveal(Stats::charged);
        lemma_fixed_left(*p);
    }
    let mut p = p;
    stats.read();
    if color(&p.right) == Color::Red {
        paint(&mut p.right, Color::Black);
        p.color = Color::Red;
        let mut w = left_rotate(p, stats);
        let inner = w.left.take().unwrap();
        let (fixed, _short) = delete_fixup_left_black(inner, stats);
        stats.swap();
        w.left = Some(fixed);
        (w, false)
    } else {
        delete_fixup_left_black(p, stats)
    }
}

/// The subtree `rest`, which may be one black node short, fits below `n` as
/// its left subtree: it is valid and holds no key above that of `n`, the
/// right subtree of `n` is valid and holds no key below it, and the black
/// heights and colors agree.
pub open spec fn hangs_left(n: Node, rest: Link, short: bool) -> bool {
    &&& valid(rest)
    &&& valid(n.right)
    &&& at_most(rest, n.val)
    &&& at_least(n.right, n.val)
    &&& black_height(rest) + if short {
        1nat
    } else {
        0nat
    } == black_height(n.right)
    &&& (short ==> color_of(rest) == Color::Black)
    &&& (n.color == Color::Red ==> color_of(rest) == Color::Black && color_of(n.right)
        == Color::Black)
}

/// The node `n` with `rest` as its left subtree.
pub open spec fn with_left(n: Node, rest: Link) -> Node {
    Node { val: n.val, color: n.color, left: rest, right: n.right }
}

/// The subtree at `n` with `rest` as its left subtree, repaired if `rest` is
/// one black node short, and whether it is then short as a whole.
pub open spec fn attached_left(n: Node, rest: Link, short: bool) -> (Node, bool) {
    if short {
        fixed_left(with_left(n, rest))
    } else {
        (with_left(n, rest), false)
    }
}

/// Hanging a fitting subtree on the left gives a valid subtree of the owed
/// black height, or one that is one black node short.
pub proof fn lemma_attached_left(n: Node, rest: Link, short: bool)
    requires
        hangs_left(n, rest, short),
    ensures
        short ==> short_left(with_left(n, rest)),
        mended(attached_left(n, rest, short), with_left(n, rest), owed_left(n)),
{
    if short {
        lemma_fixed_left(with_left(n, rest));
    }
}

/// What it costs to hang `rest` on the left of `n`: one write, and the
/// repair if `rest` is short.
pub open spec fn attached_left_cost(n: Node, rest: Link, short: bool) -> Cost {
    cost(0, 0, 1).plus(
        if short {
            fixed_left_cost(with_left(n, rest))
        } else {
            cost(0, 0, 0)
        },
    )
}

/// Hangs `rest` below `node` as its left subtree and, if `rest` came up one
/// black node short, restores the black height at `node`. Returns the root of
/// the subtree and whether it is, as a whole, still one black node short.
pub fn attach_left(node: Box<Node>, rest: Link, short: bool, stats: &mut Stats) -> (res: (
    Box<Node>,
    bool,
))
    requires
        hangs_left(*node, rest, short),
    ensures
        (*res.0, res.1) == attached_left(*node, rest, short),
        mended((*res.0, res.1), with_left(*node, rest), owed_left(*node)),
        final(stats).charged(*old(stats), attached_left_cost(*node, rest, short)),
{
    proof {
        reveal(Stats::charged);
        lemma_attached_left(*node, rest, short);
    }
    let mut node = node;
    stats.swap();
    node.left = rest;
    if short {
        delete_fixup_left(node, stats)
    } else {
        (node, false)
    }
}

/// The subtree at `p` with its right side one black node short: ordered, with
/// both sides balanced and within the color rules, a black right child, and no
/// red child below a red `p`.
pub open spec fn short_right(p: Node) -> bool {
    &&& ordered(Some(Box::new(p)))
    &&& balanced(p.right)
    &&& balanced(p.left)
    &&& black_height(p.right) + 1 == black_height(p.left)
    &&& no_red_red(p.right)
    &&& no_red_red(p.left)
    &&& color_of(p.right) == Color::Black
    &&& (p.color == Color::Red ==> color_of(p.left) == Color::Black)
}

/// The black height that the subtree at `p` should have, going by its left
/// side.
pub open spec fn owed_right(p: Node) -> nat {
    black_height(p.left) + if p.color == Color::Black {
        1nat
    } else {
        0nat
    }
}

/// The repair for a right side that is one black node short beside a black
/// left child `w`. With two black children `w` turns red and the shortage
/// moves up to `p`, which absorbs it if red. With a red far child, `w` takes
/// the color of `p`, `p` and the far child turn black, and `w` is rotated
/// above `p`; a red near child is first rotated above `w`, black above a red
/// `w`, which makes the former `w` the red far child.
pub open spec fn fixed_right_black(p: Node) -> (Node, bool) {
    let w = *p.left.unwrap();
    let near_red = color_of(w.right) == Color::Red;
    let far_red = color_of(w.left) == Color::Red;
    if !near_red && !far_red {
        (
            Node {
                val: p.val,
                color: Color::Black,
                right: p.right,
                left: Some(Box::new(painted(w, Color::Red))),
            },
            p.color == Color::Black,
        )
    } else {
        let w1 = if !far_red {
            rotated_left(
                Node {
                    val: w.val,
                    color: Color::Red,
                    right: Some(Box::new(painted(*w.right.unwrap(), Color::Black))),
                    left: w.left,
                },
            )
        } else {
            w
        };
        let w2 = Node {
            val: w1.val,
            color: p.color,
            right: w1.right,
            left: Some(Box::new(painted(*w1.left.unwrap(), Color::Black))),
        };
        (
            rotated_right(
                Node { val: p.val, color: Color::Black, right: p.right, left: Some(Box::new(w2)) },
            ),
            false,
        )
    }
}

/// The repair for a right side that is one black node short. A red left
/// child is first painted black and rotated above `p`, which turns red and has
/// a black left child from then on; the repair below it leaves nothing short.
pub open spec fn fixed_right(p: Node) -> (Node, bool) {
    if color_of(p.left) == Color::Red {
        let w = *p.left.unwrap();
        (
            Node {
                val: w.val,
                color: Color::Black,
                right: Some(Box::new(fixed_right_black(turned_right(p)).0)),
                left: w.left,
            },
            false,
        )
    } else {
        fixed_right_black(p)
    }
}

/// The node `p` as it stands, red, below its former red left child once
/// that is rotated above it: with the right subtree of that child on its
/// left.
pub open spec fn turned_right(p: Node) -> Node {
    Node { val: p.val, color: Color::Red, right: p.right, left: p.left.unwrap().right }
}

/// Beside a sibling with two black children, the repair on the right mends
/// the subtree or passes the shortage up.
pub proof fn lemma_fixed_right_recolor(p: Node)
    requires
        short_right(p),
        color_of(p.left) == Color::Black,
        p.left.is_some(),
        color_of(p.left.unwrap().right) == Color::Black,
        color_of(p.left.unwrap().left) == Color::Black,
    ensures
        mended(fixed_right_black(p), p, owed_right(p)),
{
    let w = *p.left.unwrap();
    let r = fixed_right_black(p).0;
    lemma_painted(w, Color::Red);
    assert(black_height(p.left) == black_height(w.right) + 1);
    assert(no_red_red(w.right) && no_red_red(w.left));
    assert(balanced(Some(Box::new(r))));
    assert(no_red_red(Some(Box::new(r))));
    lemma_same_keys(p, r);
}

/// Beside a sibling with a red far child, the repair on the right mends the
/// subtree.
pub proof fn lemma_fixed_right_far(p: Node)
    requires
        short_right(p),
        color_of(p.left) == Color::Black,
        p.left.is_some(),
        color_of(p.left.unwrap().left) == Color::Red,
    ensures
        mended(fixed_right_black(p), p, owed_right(p)),
        !fixed_right_black(p).1,
{
    let w = *p.left.unwrap();
    let far = *w.left.unwrap();
    let w2 = Node {
        val: w.val,
        color: p.color,
        right: w.right,
        left: Some(Box::new(painted(far, Color::Black))),
    };
    let q = Node { val: p.val, color: Color::Black, right: p.right, left: Some(Box::new(w2)) };
    let r = rotated_right(q);
    let inside = Node { val: p.val, color: Color::Black, right: p.right, left: w.right };
    assert(fixed_right_black(p).0 == r);
    assert(r.right == Some(Box::new(inside)));
    assert(r.left == Some(Box::new(painted(far, Color::Black))));
    // order
    assert(ordered(p.right) && ordered(p.left));
    assert(ordered(w.right) && ordered(w.left));
    lemma_painted(far, Color::Black);
    lemma_same_keys(w, w2);
    lemma_same_keys(p, q);
    lemma_rotated_right(q);
    // black heights
    assert(balanced(w.right) && balanced(w.left));
    assert(black_height(w.right) == black_height(w.left));
    assert(black_height(p.left) == black_height(w.right) + 1);
    assert(black_height(w.left) == black_height(far.right));
    assert(black_height(Some(Box::new(inside))) == black_height(p.right) + 1);
    assert(balanced(Some(Box::new(inside))));
    assert(balanced(Some(Box::new(r))));
    // colors
    assert(no_red_red(w.right) && no_red_red(w.left));
    assert(no_red_red(far.right) && no_red_red(far.left));
    assert(no_red_red(Some(Box::new(inside))));
    assert(no_red_red(Some(Box::new(r))));
}

/// Beside a sibling with a red near child and a black far child, the repair
/// on the right mends the subtree.
pub proof fn lemma_fixed_right_near(p: Node)
    requires
        short_right(p),
        color_of(p.left) == Color::Black,
        p.left.is_some(),
        color_of(p.left.unwrap().right) == Color::Red,
        color_of(p.left.unwrap().left) == Color::Black,
    ensures
        mended(fixed_right_black(p), p, owed_right(p)),
        !fixed_right_black(p).1,
{
    let w = *p.left.unwrap();
    let near = *w.right.unwrap();
    let wr = Node {
        val: w.val,
        color: Color::Red,
        right: Some(Box::new(painted(near, Color::Black))),
        left: w.left,
    };
    let w1 = rotated_left(wr);
    let outside = Node { val: w.val, color: Color::Red, right: near.left, left: w.left };
    assert(w1.left == Some(Box::new(outside)));
    let w2 = Node {
        val: w1.val,
        color: p.color,
        right: w1.right,
        left: Some(Box::new(painted(outside, Color::Black))),
    };
    let q = Node { val: p.val, color: Color::Black, right: p.right, left: Some(Box::new(w2)) };
    let r = rotated_right(q);
    let inside = Node { val: p.val, color: Color::Black, right: p.right, left: near.right };
    assert(fixed_right_black(p).0 == r);
    assert(r.right == Some(Box::new(inside)));
    assert(r.left == Some(Box::new(painted(outside, Color::Black))));
    // order
    assert(ordered(p.right) && ordered(p.left));
    assert(ordered(w.right) && ordered(w.left));
    lemma_painted(near, Color::Black);
    lemma_same_keys(w, wr);
    lemma_rotated_left(wr);
    assert(ordered(w1.right) && ordered(w1.left));
    lemma_painted(outside, Color::Black);
    lemma_same_keys(w1, w2);
    assert(keys(Some(Box::new(w2))) =~= keys(p.left));
    lemma_same_keys(p, q);
    lemma_rotated_right(q);
    // black heights
    assert(balanced(w.right) && balanced(w.left));
    assert(black_height(w.right) == black_height(w.left));
    assert(black_height(p.left) == black_height(w.right) + 1);
    assert(black_height(w.right) == black_height(near.right));
    assert(balanced(near.right) && balanced(near.left));
    assert(black_height(near.right) == black_height(near.left));
    assert(black_height(Some(Box::new(inside))) == black_height(p.right) + 1);
    assert(balanced(Some(Box::new(inside))));
    assert(black_height(Some(Box::new(painted(outside, Color::Black)))) == black_height(
        near.left,
    ) + 1);
    assert(balanced(Some(Box::new(outside))));
    assert(balanced(Some(Box::new(r))));
    // colors
    assert(no_red_red(w.right) && no_red_red(w.left));
    assert(no_red_red(near.right) && no_red_red(near.left));
    assert(no_red_red(Some(Box::new(inside))));
    assert(no_red_red(Some(Box::new(painted(outside, Color::Black)))));
    assert(no_red_red(Some(Box::new(r))));
}

/// Beside a black sibling, the repair on the right mends the subtree or
/// passes the shortage up; the sibling is there.
pub proof fn lemma_fixed_right_black(p: Node)
    requires
        short_right(p),
        color_of(p.left) == Color::Black,
    ensures
        p.left.is_some(),
        mended(fixed_right_black(p), p, owed_right(p)),
{
    lemma_absent();
    let w = *p.left.unwrap();
    if color_of(w.left) == Color::Red {
        lemma_fixed_right_far(p);
    } else if color_of(w.right) == Color::Red {
        lemma_fixed_right_near(p);
    } else {
        lemma_fixed_right_recolor(p);
    }
}

/// The repair on the right mends the subtree or passes the shortage up. The
/// left child is there, and a red one has a right child.
pub proof fn lemma_fixed_right(p: Node)
    requires
        short_right(p),
    ensures
        p.left.is_some(),
        color_of(p.left) == Color::Red ==> short_right(turned_right(p)) && color_of(
            turned_right(p).left,
        ) == Color::Black,
        mended(fixed_right(p), p, owed_right(p)),
{
    lemma_absent();
    if color_of(p.left) == Color::Red {
        let w = *p.left.unwrap();
        let q = Node {
            val: p.val,
            color: Color::Red,
            right: p.right,
            left: Some(Box::new(painted(w, Color::Black))),
        };
        let top = rotated_right(q);
        let inner = turned_right(p);
        assert(top.right == Some(Box::new(inner)));
        // order
        assert(ordered(p.right) && ordered(p.left));
        lemma_painted(w, Color::Black);
        lemma_same_keys(p, q);
        lemma_rotated_right(q);
        assert(ordered(top.right) && ordered(top.left));
        // the inner node is short on the right, beside a black sibling
        assert(balanced(w.right) && balanced(w.left));
        assert(black_height(w.right) == black_height(w.left));
        assert(black_height(p.left) == black_height(w.right));
        assert(no_red_red(w.right) && no_red_red(w.left));
        assert(short_right(inner));
        lemma_fixed_right_black(inner);
        let fixed = fixed_right_black(inner);
        let r = fixed_right(p).0;
        assert(r == Node {
            val: w.val,
            color: Color::Black,
            right: Some(Box::new(fixed.0)),
            left: w.left,
        });
        lemma_same_keys(top, r);
        assert(balanced(Some(Box::new(r))));
        assert(no_red_red(Some(Box::new(r))));
    } else {
        lemma_fixed_right_black(p);
    }
}

/// What the repair beside a black left child costs: three reads, for the
/// child and the colors of its children, and, unless both are black, a write
/// and one or two rotations.
pub open spec fn fixed_right_black_cost(p: Node) -> Cost {
    let w = *p.left.unwrap();
    let near_red = color_of(w.right) == Color::Red;
    let far_red = color_of(w.left) == Color::Red;
    if !near_red && !far_red {
        cost(0, 3, 0)
    } else if !far_red {
        cost(0, 3, 1).plus(rotation_cost()).plus(rotation_cost())
    } else {
        cost(0, 3, 1).plus(rotation_cost())
    }
}

/// Restores the black height below `p` when its right subtree is one black
/// node short and its left child is black.
pub fn delete_fixup_right_black(p: Box<Node>, stats: &mut Stats) -> (res: (Box<Node>, bool))
    requires
        short_right(*p),
        color_of(p.left) == Color::Black,
    ensures
        (*res.0, res.1) == fixed_right_black(*p),
        mended((*res.0, res.1), *p, owed_right(*p)),
        final(stats).charged(*old(stats), fixed_right_black_cost(*p)),
{
    proof {
        reveal(Stats::charged);
        lemma_fixed_right_black(*p);
    }
    let mut p = p;
    stats.read();
    let mut w = p.left.take().unwrap();
    stats.read();
    let near_red = color(&w.right) == Color::Red;
    stats.read();
    let far_red = color(&w.left) == Color::Red;
    if !near_red && !far_red {
        w.color = Color::Red;
        p.left = Some(w);
        let short = p.color == Color::Black;
        p.color = Color::Black;
        (p, short)
    } else {
        if !far_red {
            paint(&mut w.right, Color::Black);
            w.color = Color::Red;
            w = left_rotate(w, stats);
        }
        w.color = p.color;
        p.color = Color::Black;
        paint(&mut w.left, Color::Black);
        stats.swap();
        p.left = Some(w);
        (right_rotate(p, stats), false)
    }
}

/// What the repair on the right side costs: one read for the color of the
/// left child; below a red one a rotation and a write besides the repair
/// beside the black child that then stands in its place.
pub open spec fn fixed_right_cost(p: Node) -> Cost {
    if color_of(p.left) == Color::Red {
        cost(0, 1, 1).plus(rotation_cost()).plus(fixed_right_black_cost(turned_right(p)))
    } else {
        cost(0, 1, 0).plus(fixed_right_black_cost(p))
    }
}

/// Restores the black height below `p` when its right subtree is one black
/// node short. Returns the root of the repaired subtree and whether it is,
/// as a whole, still one black node short.
pub fn delete_fixup_right(p: Box<Node>, stats: &mut Stats) -> (res: (Box<Node>, bool))
    requires
        short_right(*p),
    ensures
        (*res.0, res.1) == fixed_right(*p),
        mended((*res.0, res.1), *p, owed_right(*p)),
        final(stats).charged(*old(stats), fixed_right_cost(*p)),
{
    proof {
        reveal(Stats::charged);
        lemma_fixed_right(*p);
    }
    let mut p = p;
    stats.read();
    if color(&p.left) == Color::Red {
        paint(&mut p.left, Color::Black);
        p.color = Color::Red;
        let mut w = right_rotate(p, stats);
        let inner = w.right.take().unwrap();
        let (fixed, _short) = delete_fixup_right_black(inner, stats);
        stats.swap();
        w.right = Some(fixed);
        (w, false)
    } else {
        delete_fixup_right_black(p, stats)
    }
}

/// The subtree `rest`, which may be one black node short, fits below `n` as
/// its right subtree: it is valid and holds no key below that of `n`, the
/// left subtree of `n` is valid and holds no key above it, and the black
/// heights and colors agree.
pub open spec fn hangs_right(n: Node, rest: Link, short: bool) -> bool {
    &&& valid(rest)
    &&& valid(n.left)
    &&& at_least(rest, n.val)
    &&& at_most(n.left, n.val)
    &&& black_height(rest) + if short {
        1nat
    } else {
        0nat
    } == black_height(n.left)
    &&& (short ==> color_of(rest) == Color::Black)
    &&& (n.color == Color::Red ==> color_of(rest) == Color::Black && color_of(n.left)
        == Color::Black)
}

/// The node `n` with `rest` as its right subtree.
pub open spec fn with_right(n: Node, rest: Link) -> Node {
    Node { val: n.val, color: n.color, right: rest, left: n.left }
}

/// The subtree at `n` with `rest` as its right subtree, repaired if `rest` is
/// one black node short, and whether it is then short as a whole.
pub open spec fn attached_right(n: Node, rest: Link, short: bool) -> (Node, bool) {
    if short {
        fixed_right(with_right(n, rest))
    } else {
        (with_right(n, rest), false)
    }
}

/// Hanging a fitting subtree on the right gives a valid subtree of the owed
/// black height, or one that is one black node short.
pub proof fn lemma_attached_right(n: Node, rest: Link, short: bool)
    requires
        hangs_right(n, rest, short),
    ensures
        short ==> short_right(with_right(n, rest)),
        mended(attached_right(n, rest, short), with_right(n, rest), owed_right(n)),
{
    if short {
        lemma_fixed_right(with_right(n, rest));
    }
}

/// What it costs to hang `rest` on the right of `n`: one write, and the
/// repair if `rest` is short.
pub open spec fn attached_right_cost(n: Node, rest: Link, short: bool) -> Cost {
    cost(0, 0, 1).plus(
        if short {
            fixed_right_cost(with_right(n, rest))
        } else {
            cost(0, 0, 0)
        },
    )
}

/// Hangs `rest` below `node` as its right subtree and, if `rest` came up one
/// black node short, restores the black height at `node`. Returns the root of
/// the subtree and whether it is, as a whole, still one black node short.
pub fn attach_right(node: Box<Node>, rest: Link, short: bool, stats: &mut Stats) -> (res: (
    Box<Node>,
    bool,
))
    requires
        hangs_right(*node, rest, short),
    ensures
        (*res.0, res.1) == attached_right(*node, rest, short),
        mended((*res.0, res.1), with_right(*node, rest), owed_right(*node)),
        final(stats).charged(*old(stats), attached_right_cost(*node, rest, short)),
{
    proof {
        reveal(Stats::charged);
        lemma_attached_right(*node, rest, short);
    }
    let mut node = node;
    stats.swap();
    node.right = rest;
    if short {
        delete_fixup_right(node, stats)
    } else {
        (node, false)
    }
}

/// What is left of a subtree once a node is taken out: valid, with the black
/// height `owed` if the level it may be short of is counted, black at the
/// root if it is short or if `was` was.
pub open spec fn remains(rest: Link, short: bool, owed: nat, was: Color) -> bool {
    &&& valid(rest)
    &&& black_height(rest) + if short {
        1nat
    } else {
        0nat
    } == owed
    &&& (short ==> color_of(rest) == Color::Black)
    &&& (was == Color::Black ==> color_of(rest) == Color::Black)
}

/// The subtree at `n` without its leftmost node: what is left, the node
/// taken out (without children) and whether the rest is one black node
/// short. The right subtree of the leftmost node takes its place, painted
/// black below a black node.
pub open spec fn without_min(n: Node) -> (Link, Node, bool)
    decreases n,
{
    match n.left {
        None => {
            let min = Node { val: n.val, color: n.color, left: None, right: None };
            if n.color == Color::Black && n.right.is_some() {
                (Some(Box::new(painted(*n.right.unwrap(), Color::Black))), min, false)
            } else {
                (n.right, min, n.color == Color::Black)
            }
        },
        Some(l) => {
            let below = without_min(*l);
            let up = attached_left(n, below.0, below.2);
            (Some(Box::new(up.0)), below.1, up.1)
        },
    }
}

/// Taking the leftmost node out of a valid subtree takes out its least key
/// and leaves a valid subtree, which may be one black node short.
pub proof fn lemma_without_min(n: Node)
    requires
        valid(Some(Box::new(n))),
    ensures
        keys(without_min(n).0).insert(without_min(n).1.val) =~= keys(Some(Box::new(n))),
        at_least(Some(Box::new(n)), without_min(n).1.val),
        remains(without_min(n).0, without_min(n).2, black_height(Some(Box::new(n))), n.color),
    decreases n,
{
    lemma_absent();
    lemma_parts(n);
    match n.left {
        None => {
            if n.right.is_some() {
                let c = *n.right.unwrap();
                lemma_painted(c, Color::Black);
                assert(no_red_red(c.left) && no_red_red(c.right));
                assert(balanced(c.left) && balanced(c.right));
            }
        },
        Some(l) => {
            lemma_without_min(*l);
            let below = without_min(*l);
            assert(keys(n.left).count(below.1.val) > 0);
            assert forall|k: usize| keys(below.0).count(k) > 0 implies k <= n.val by {
                assert(keys(n.left).count(k) > 0);
            }
            assert(hangs_left(n, below.0, below.2));
            lemma_attached_left(n, below.0, below.2);
            assert(keys(Some(Box::new(with_left(n, below.0)))) =~= keys(below.0).add(
                keys(n.right),
            ).insert(n.val));
        },
    }
}

/// What it costs to detach the leftmost node below `n`: a read at each node
/// down to it and another for its right child, and a write and any repair at
/// each node on the way back.
pub open spec fn without_min_cost(n: Node) -> Cost
    decreases n,
{
    match n.left {
        None => cost(0, 2, 0),
        Some(l) => cost(0, 1, 0).plus(without_min_cost(*l)).plus(
            attached_left_cost(n, without_min(*l).0, without_min(*l).2),
        ),
    }
}

/// Detaches the leftmost node below `node`, which holds the least key, and
/// repairs the color rules on the way back. Returns what is left of the
/// subtree, the detached node without children, and whether the rest came up
/// one black node short.
pub fn min_from(node: Box<Node>, stats: &mut Stats) -> (res: (Link, Box<Node>, bool))
    requires
        valid(Some(node)),
    ensures
        (res.0, *res.1, res.2) == without_min(*node),
        final(stats).charged(*old(stats), without_min_cost(*node)),
    decreases node,
{
    proof {
        lemma_parts(*node);
    }
    let mut node = node;
    let ghost n0 = *node;
    let ghost s0 = *stats;
    stats.read();
    let ghost s1 = *stats;
    match node.left.take() {
        None => {
            stats.read();
            assert(stats.charged(s0, cost(0, 2, 0))) by {
                reveal(Stats::charged);
            }
            let mut rest = node.right.take();
            let mut short = false;
            if node.color == Color::Black {
                if rest.is_some() {
                    paint(&mut rest, Color::Black);
                } else {
                    short = true;
                }
            }
            (rest, node, short)
        },
        Some(left) => {
            proof {
                lemma_without_min(*left);
                let below = without_min(*left);
                assert forall|k: usize| keys(below.0).count(k) > 0 implies k <= n0.val by {
                    assert(keys(n0.left).count(k) > 0);
                }
            }
            let (rest, min, short) = min_from(left, stats);
            let ghost s2 = *stats;
            let (r, still) = attach_left(node, rest, short, stats);
            proof {
                lemma_charged_twice(s0, s1, s2, cost(0, 1, 0), without_min_cost(*left));
                lemma_charged_twice(
                    s0,
                    s2,
                    *stats,
                    cost(0, 1, 0).plus(without_min_cost(*left)),
                    attached_left_cost(n0, rest, short),
                );
            }
            (Some(r), min, still)
        },
    }
}

/// What stands in the place of `n` once it is taken out, and whether that is
/// one black node short: nothing for a leaf; the only child, painted black
/// below a black `n`; and else the least node of the right subtree, in the
/// color of `n` and with both subtrees of `n` below it.
pub open spec fn replaced(n: Node) -> (Link, bool) {
    match (n.left, n.right) {
        (None, None) => (None, n.color == Color::Black),
        (None, Some(c)) => (
            if n.color == Color::Black {
                Some(Box::new(painted(*c, Color::Black)))
            } else {
                Some(c)
            },
            false,
        ),
        (Some(c), None) => (
            if n.color == Color::Black {
                Some(Box::new(painted(*c, Color::Black)))
            } else {
                Some(c)
            },
            false,
        ),
        (Some(l), Some(r)) => {
            let below = without_min(*r);
            let y = Node { val: below.1.val, color: n.color, left: Some(l), right: None };
            let up = attached_right(y, below.0, below.2);
            (Some(Box::new(up.0)), up.1)
        },
    }
}

/// Taking a node out of a valid subtree takes out one occurrence of its key
/// and leaves a valid subtree, which may be one black node short.
pub proof fn lemma_replaced(n: Node)
    requires
        valid(Some(Box::new(n))),
    ensures
        keys(replaced(n).0) =~= keys(Some(Box::new(n))).remove(n.val),
        remains(replaced(n).0, replaced(n).1, black_height(Some(Box::new(n))), n.color),
{
    lemma_absent();
    lemma_parts(n);
    match (n.left, n.right) {
        (None, None) => {},
        (None, Some(c)) => {
            lemma_painted(*c, Color::Black);
            assert(no_red_red(c.left) && no_red_red(c.right));
            assert(balanced(c.left) && balanced(c.right));
        },
        (Some(c), None) => {
            lemma_painted(*c, Color::Black);
            assert(no_red_red(c.left) && no_red_red(c.right));
            assert(balanced(c.left) && balanced(c.right));
        },
        (Some(l), Some(r)) => {
            lemma_without_min(*r);
            let below = without_min(*r);
            let y = Node { val: below.1.val, color: n.color, left: Some(l), right: None };
            assert(keys(n.right).count(below.1.val) > 0);
            assert forall|k: usize| keys(below.0).count(k) > 0 implies below.1.val <= k by {
                assert(keys(n.right).count(k) > 0);
            }
            assert forall|k: usize| keys(y.left).count(k) > 0 implies k <= y.val by {
                assert(keys(n.left).count(k) > 0);
            }
            assert(hangs_right(y, below.0, below.2));
            lemma_attached_right(y, below.0, below.2);
            assert(keys(Some(Box::new(with_right(y, below.0)))) =~= keys(n.left).add(
                keys(below.0),
            ).insert(y.val));
        },
    }
}

/// What it costs to take `n` out of its place: two reads for its links; a
/// write for bringing up an only child; and with two children the cost of
/// detaching the least node of the right subtree, a write for handing it the
/// left subtree, and the cost of hanging the rest on its right.
pub open spec fn replaced_cost(n: Node) -> Cost {
    match (n.left, n.right) {
        (None, None) => cost(0, 2, 0),
        (None, Some(_)) => cost(0, 2, 1),
        (Some(_), None) => cost(0, 2, 1),
        (Some(l), Some(r)) => {
            let below = without_min(*r);
            let y = Node { val: below.1.val, color: n.color, left: Some(l), right: None };
            cost(0, 2, 1).plus(without_min_cost(*r)).plus(
                attached_right_cost(y, below.0, below.2),
            )
        },
    }
}

/// Takes `node` out of its subtree and returns what stands in its place, and
/// whether that came up one black node short. A node with at most one child
/// is replaced by that child; a node with two children by the least node of
/// its right subtree, which takes over its color and both subtrees.
pub fn get_replacement(node: Box<Node>, stats: &mut Stats) -> (res: (Link, bool))
    requires
        valid(Some(node)),
    ensures
        res == replaced(*node),
        final(stats).charged(*old(stats), replaced_cost(*node)),
{
    proof {
        lemma_parts(*node);
    }
    let mut node = node;
    let ghost n0 = *node;
    let ghost s0 = *stats;
    stats.read();
    let left = node.left.take();
    stats.read();
    let right = node.right.take();
    let ghost s1 = *stats;
    assert(s1.charged(s0, cost(0, 2, 0))) by {
        reveal(Stats::charged);
    }
    match (left, right) {
        (None, None) => (None, node.color == Color::Black),
        (None, Some(child)) => {
            let mut rest = Some(child);
            if node.color == Color::Black {
                paint(&mut rest, Color::Black);
            }
            stats.swap();
            proof {
                lemma_charged_twice(s0, s1, *stats, cost(0, 2, 0), cost(0, 0, 1));
            }
            (rest, false)
        },
        (Some(child), None) => {
            let mut rest = Some(child);
            if node.color == Color::Black {
                paint(&mut rest, Color::Black);
            }
            stats.swap();
            proof {
                lemma_charged_twice(s0, s1, *stats, cost(0, 2, 0), cost(0, 0, 1));
            }
            (rest, false)
        },
        (Some(left), Some(right)) => {
            proof {
                lemma_without_min(*right);
                let below = without_min(*right);
                assert(keys(n0.right).count(below.1.val) > 0);
                assert forall|k: usize| keys(below.0).count(k) > 0 implies below.1.val <= k by {
                    assert(keys(n0.right).count(k) > 0);
                }
                assert forall|k: usize| keys(n0.left).count(k) > 0 implies k <= below.1.val by {}
            }
            let (rest, y, short) = min_from(right, stats);
            let mut y = y;
            let ghost s2 = *stats;
            stats.swap();
            let ghost s3 = *stats;
            y.left = Some(left);
            y.color = node.color;
            let ghost y0 = *y;
            let (r, still) = attach_right(y, rest, short, stats);
            proof {
                lemma_charged_twice(s0, s1, s2, cost(0, 2, 0), without_min_cost(*right));
                lemma_charged_twice(
                    s0,
                    s2,
                    s3,
                    cost(0, 2, 0).plus(without_min_cost(*right)),
                    cost(0, 0, 1),
                );
                lemma_charged_twice(
                    s0,
                    s3,
                    *stats,
                    cost(0, 2, 0).plus(without_min_cost(*right)).plus(cost(0, 0, 1)),
                    attached_right_cost(y0, rest, short),
                );
            }
            (Some(r), still)
        },
    }
}

/// The subtree without the first node holding `val` that a search meets,
/// whether there was one, and whether the subtree came up one black node
/// short. Each node on the way back is repaired on the side of the search.
pub open spec fn deleted(t: Link, val: usize) -> (Link, bool, bool)
    decreases t,
{
    match t {
        None => (None, false, false),
        Some(n) => if val < n.val {
            let below = deleted(n.left, val);
            let up = attached_left(*n, below.0, below.2);
            (Some(Box::new(up.0)), below.1, up.1)
        } else if val > n.val {
            let below = deleted(n.right, val);
            let up = attached_right(*n, below.0, below.2);
            (Some(Box::new(up.0)), below.1, up.1)
        } else {
            let gone = replaced(*n);
            (gone.0, true, gone.1)
        },
    }
}

/// Where the deletion of `val` from the left subtree of a valid node goes
/// well, for a key below that of the node, what it leaves fits back below the
/// node, and the deletion from the node goes well.
pub proof fn lemma_deleted_left(n: Node, val: usize)
    requires
        valid(Some(Box::new(n))),
        val < n.val,
        deleted_well(n.left, val),
    ensures
        hangs_left(n, deleted(n.left, val).0, deleted(n.left, val).2),
        deleted_well(Some(Box::new(n)), val),
{
    lemma_parts(n);
    let t = Some(Box::new(n));
    let below = deleted(n.left, val);
    let up = attached_left(n, below.0, below.2);
    assert(deleted(t, val) == (Some(Box::new(up.0)), below.1, up.1));
    assert forall|k: usize| keys(below.0).count(k) > 0 implies k <= n.val by {
        assert(keys(n.left).count(k) > 0);
    }
    assert(hangs_left(n, below.0, below.2));
    lemma_attached_left(n, below.0, below.2);
    assert(keys(n.right).count(val) == 0);
    assert(keys(Some(Box::new(with_left(n, below.0)))) =~= keys(below.0).add(
        keys(n.right),
    ).insert(n.val));
    assert(keys(Some(Box::new(up.0))) =~= keys(t).remove(val));
    if !below.1 {
        assert(with_left(n, below.0) == n);
    }
}

/// Where the deletion of `val` from the right subtree of a valid node goes
/// well, for a key above that of the node, what it leaves fits back below the
/// node, and the deletion from the node goes well.
pub proof fn lemma_deleted_right(n: Node, val: usize)
    requires
        valid(Some(Box::new(n))),
        val > n.val,
        deleted_well(n.right, val),
    ensures
        hangs_right(n, deleted(n.right, val).0, deleted(n.right, val).2),
        deleted_well(Some(Box::new(n)), val),
{
    lemma_parts(n);
    let t = Some(Box::new(n));
    let below = deleted(n.right, val);
    let up = attached_right(n, below.0, below.2);
    assert(deleted(t, val) == (Some(Box::new(up.0)), below.1, up.1));
    assert forall|k: usize| keys(below.0).count(k) > 0 implies n.val <= k by {
        assert(keys(n.right).count(k) > 0);
    }
    assert(hangs_right(n, below.0, below.2));
    lemma_attached_right(n, below.0, below.2);
    assert(keys(n.left).count(val) == 0);
    assert(keys(Some(Box::new(with_right(n, below.0)))) =~= keys(below.0).add(
        keys(n.left),
    ).insert(n.val));
    assert(keys(Some(Box::new(up.0))) =~= keys(t).remove(val));
    if !below.1 {
        assert(with_right(n, below.0) == n);
    }
}

/// The deletion of `val` from a subtree goes well: it finds a node exactly
/// if the subtree holds `val`, takes out one occurrence of it and leaves a
/// valid subtree, which may be one black node short; a subtree without `val`
/// stays as it is.
pub open spec fn deleted_well(t: Link, val: usize) -> bool {
    &&& deleted(t, val).1 == (keys(t).count(val) > 0)
    &&& (!deleted(t, val).1 ==> deleted(t, val).0 == t && !deleted(t, val).2)
    &&& keys(deleted(t, val).0) =~= keys(t).remove(val)
    &&& remains(deleted(t, val).0, deleted(t, val).2, black_height(t), color_of(t))
}

/// Deleting a key from a valid subtree takes out one occurrence of it, if
/// there is one, and leaves a valid subtree, which may be one black node
/// short. A subtree without the key stays as it is.
pub proof fn lemma_deleted(t: Link, val: usize)
    requires
        valid(t),
    ensures
        deleted_well(t, val),
    decreases t,
{
    lemma_absent();
    match t {
        None => {},
        Some(n) => {
            lemma_parts(*n);
            if val < n.val {
                lemma_deleted(n.left, val);
                lemma_deleted_left(*n, val);
            } else if val > n.val {
                lemma_deleted(n.right, val);
                lemma_deleted_right(*n, val);
            } else {
                lemma_replaced(*n);
            }
        },
    }
}

/// What the search for `val` below a link and the removal of the node found
/// cost: at each node passed a comparison and a read for the link followed;
/// the cost of taking out the node found; and a write and any repair at each
/// node on the way back.
pub open spec fn deleted_cost(t: Link, val: usize) -> Cost
    decreases t,
{
    match t {
        None => cost(0, 0, 0),
        Some(n) => cost(1, 0, 0).plus(
            if val < n.val {
                match n.left {
                    None => cost(0, 1, 0),
                    Some(_) => cost(0, 1, 0).plus(deleted_cost(n.left, val)).plus(
                        attached_left_cost(*n, deleted(n.left, val).0, deleted(n.left, val).2),
                    ),
                }
            } else if val > n.val {
                match n.right {
                    None => cost(0, 1, 0),
                    Some(_) => cost(0, 1, 0).plus(deleted_cost(n.right, val)).plus(
                        attached_right_cost(
                            *n,
                            deleted(n.right, val).0,
                            deleted(n.right, val).2,
                        ),
                    ),
                }
            } else {
                replaced_cost(*n)
            },
        ),
    }
}

/// What it costs to delete `val` from the tree: nothing for an empty tree,
/// and else a read and a write for the root link besides the search and the
/// removal.
pub open spec fn delete_cost(t: Link, val: usize) -> Cost {
    match t {
        None => cost(0, 0, 0),
        Some(_) => cost(0, 1, 1).plus(deleted_cost(t, val)),
    }
}

/// Neither a repair nor the removal of a node compares keys: a deletion
/// compares once for each node that the search passes.
pub proof fn lemma_delete_comps(t: Link, val: usize)
    ensures
        deleted_cost(t, val).comps == search_path_len(t, val),
        delete_cost(t, val).comps == search_path_len(t, val),
    decreases t,
{
    match t {
        None => {},
        Some(n) => {
            assert(search_path_len(None, val) == 0);
            if val < n.val {
                if n.left.is_some() {
                    lemma_delete_comps(n.left, val);
                }
            } else if val > n.val {
                if n.right.is_some() {
                    lemma_delete_comps(n.right, val);
                }
            } else {
                if n.left.is_some() && n.right.is_some() {
                    lemma_min_comps(*n.right.unwrap());
                }
            }
        },
    }
}

/// Detaching the leftmost node compares no keys.
pub proof fn lemma_min_comps(n: Node)
    ensures
        without_min_cost(n).comps == 0,
    decreases n,
{
    match n.left {
        None => {},
        Some(l) => {
            lemma_min_comps(*l);
        },
    }
}

/// What it costs to go on with a deletion in the left subtree of `n`: a read
/// for the link, and if there is a subtree, the deletion from it and the
/// hanging of the rest.
pub open spec fn deleted_left_cost(n: Node, val: usize) -> Cost {
    match n.left {
        None => cost(0, 1, 0),
        Some(_) => cost(0, 1, 0).plus(deleted_cost(n.left, val)).plus(
            attached_left_cost(n, deleted(n.left, val).0, deleted(n.left, val).2),
        ),
    }
}

/// Removes one node holding `val`, if there is one, from the left subtree of
/// `node`, and hangs the rest back below `node`.
pub fn delete_left(node: Box<Node>, val: usize, stats: &mut Stats) -> (res: (Link, bool, bool))
    requires
        val < node.val,
        valid(Some(node)),
    ensures
        res == deleted(Some(node), val),
        final(stats).charged(*old(stats), deleted_left_cost(*node, val)),
    decreases node, 0nat,
{
    let mut node = node;
    let ghost n0 = *node;
    let ghost s0 = *stats;
    proof {
        lemma_parts(n0);
        lemma_deleted(n0.left, val);
        lemma_deleted_left(n0, val);
    }
    stats.read();
    let ghost s1 = *stats;
    match node.left.take() {
        None => {
            assert(with_left(n0, None) == n0);
            (Some(node), false, false)
        },
        Some(left) => {
            let (rest, found, short) = delete_node(left, val, stats);
            let ghost s2 = *stats;
            let (r, still) = attach_left(node, rest, short, stats);
            proof {
                lemma_charged_twice(s0, s1, s2, cost(0, 1, 0), deleted_cost(n0.left, val));
                lemma_charged_twice(
                    s0,
                    s2,
                    *stats,
                    cost(0, 1, 0).plus(deleted_cost(n0.left, val)),
                    attached_left_cost(n0, rest, short),
                );
            }
            (Some(r), found, still)
        },
    }
}

/// What it costs to go on with a deletion in the right subtree of `n`: a read
/// for the link, and if there is a subtree, the deletion from it and the
/// hanging of the rest.
pub open spec fn deleted_right_cost(n: Node, val: usize) -> Cost {
    match n.right {
        None => cost(0, 1, 0),
        Some(_) => cost(0, 1, 0).plus(deleted_cost(n.right, val)).plus(
            attached_right_cost(n, deleted(n.right, val).0, deleted(n.right, val).2),
        ),
    }
}

/// Removes one node holding `val`, if there is one, from the right subtree of
/// `node`, and hangs the rest back below `node`.
pub fn delete_right(node: Box<Node>, val: usize, stats: &mut Stats) -> (res: (Link, bool, bool))
    requires
        val > node.val,
        valid(Some(node)),
    ensures
        res == deleted(Some(node), val),
        final(stats).charged(*old(stats), deleted_right_cost(*node, val)),
    decreases node, 0nat,
{
    let mut node = node;
    let ghost n0 = *node;
    let ghost s0 = *stats;
    proof {
        lemma_parts(n0);
        lemma_deleted(n0.right, val);
        lemma_deleted_right(n0, val);
    }
    stats.read();
    let ghost s1 = *stats;
    match node.right.take() {
        None => {
            assert(with_right(n0, None) == n0);
            (Some(node), false, false)
        },
        Some(right) => {
            let (rest, found, short) = delete_node(right, val, stats);
            let ghost s2 = *stats;
            let (r, still) = attach_right(node, rest, short, stats);
            proof {
                lemma_charged_twice(s0, s1, s2, cost(0, 1, 0), deleted_cost(n0.right, val));
                lemma_charged_twice(
                    s0,
                    s2,
                    *stats,
                    cost(0, 1, 0).plus(deleted_cost(n0.right, val)),
                    attached_right_cost(n0, rest, short),
                );
            }
            (Some(r), found, still)
        },
    }
}

/// Removes one node holding `val` from the subtree at `node`, if there is
/// one: the first that the descent meets. Returns what is left, whether a
/// node was removed, and whether the subtree came up one black node short.
pub fn delete_node(node: Box<Node>, val: usize, stats: &mut Stats) -> (res: (Link, bool, bool))
    requires
        valid(Some(node)),
    ensures
        res == deleted(Some(node), val),
        final(stats).charged(*old(stats), deleted_cost(Some(node), val)),
    decreases node, 1nat,
{
    let ghost s0 = *stats;
    stats.comp();
    let ghost s1 = *stats;
    if val < node.val {
        let res = delete_left(node, val, stats);
        proof {
            lemma_charged_twice(s0, s1, *stats, cost(1, 0, 0), deleted_left_cost(*node, val));
        }
        res
    } else if val > node.val {
        let res = delete_right(node, val, stats);
        proof {
            lemma_charged_twice(s0, s1, *stats, cost(1, 0, 0), deleted_right_cost(*node, val));
        }
        res
    } else {
        let (rest, short) = get_replacement(node, stats);
        proof {
            lemma_charged_twice(s0, s1, *stats, cost(1, 0, 0), replaced_cost(*node));
        }
        (rest, true, short)
    }
}

} // verus!
