//! Insertion into a red-black subtree: the descent that hangs a red leaf, and
//! the repair of the color rules at each node on the way back.

use vstd::prelude::*;
use crate::experiment::{Cost, Stats, cost, lemma_charged_nothing, lemma_charged_twice};
use crate::rb_tree::node_pointer::{color, new_pointer};
use crate::rb_tree::rotation::{left_rotate, right_rotate, rotation_cost};
use crate::rb_tree::tree_node::{
    Color, Link, Node, balanced, black_height, color_of, insert_path_len, keys, leaf,
    lemma_leaf, lemma_painted, lemma_parts, lemma_rotated_left, lemma_rotated_right, no_red_red,
    ordered, painted, rotated_left, rotated_right, valid,
};

verus! {

/// The color rules hold below the root of the subtree; the root itself, if
/// red, has at most one red child.
pub open spec fn nearly(t: Link) -> bool {
    match t {
        None => true,
        Some(n) => {
            &&& no_red_red(n.left)
            &&& no_red_red(n.right)
            &&& (n.color == Color::Red ==> !(color_of(n.left) == Color::Red && color_of(n.right)
                == Color::Red))
        },
    }
}

/// The subtree at `g` as an insertion into its left subtree leaves it: ordered
/// and balanced, with the color rules kept on the right and, but for the root
/// of the left subtree, on the left.
pub open spec fn unsettled_left(g: Node) -> bool {
    &&& ordered(Some(Box::new(g)))
    &&& balanced(Some(Box::new(g)))
    &&& no_red_red(g.right)
    &&& nearly(g.left)
    &&& (g.color == Color::Red ==> no_red_red(g.left) && color_of(g.right) == Color::Black)
}

/// The subtree at `r` is ordered and balanced with the black height of `g`,
/// and keeps the color rules but, where `g` was red, at its root.
pub open spec fn settled(r: Node, g: Node) -> bool {
    &&& ordered(Some(Box::new(r)))
    &&& balanced(Some(Box::new(r)))
    &&& black_height(Some(Box::new(r))) == black_height(Some(Box::new(g)))
    &&& nearly(Some(Box::new(r)))
    &&& (g.color == Color::Black ==> no_red_red(Some(Box::new(r))))
}

/// The subtree at `g` after the repair on its left side. Where the left
/// child `p` is red and has a red child: if the right child of `g` is red too,
/// both children turn black and `g` red; else `p` turns black, `g` red, and
/// `p` is rotated above `g`, after its red child was rotated above it if that
/// is the inner one. Otherwise `g` stays as it is.
pub open spec fn fixup_left(g: Node) -> Node {
    if color_of(g.left) == Color::Black {
        g
    } else {
        let p = *g.left.unwrap();
        let outer = color_of(p.left) == Color::Red;
        let inner = color_of(p.right) == Color::Red;
        if !outer && !inner {
            g
        } else if color_of(g.right) == Color::Red {
            Node {
                val: g.val,
                color: Color::Red,
                left: Some(Box::new(painted(p, Color::Black))),
                right: Some(Box::new(painted(*g.right.unwrap(), Color::Black))),
            }
        } else {
            let top = if inner {
                rotated_left(p)
            } else {
                p
            };
            rotated_right(
                Node {
                    val: g.val,
                    color: Color::Red,
                    left: Some(Box::new(painted(top, Color::Black))),
                    right: g.right,
                },
            )
        }
    }
}

/// The repair on the left side settles the subtree.
pub proof fn lemma_fixup_left(g: Node)
    requires
        unsettled_left(g),
    ensures
        settled(fixup_left(g), g),
        keys(Some(Box::new(fixup_left(g)))) =~= keys(Some(Box::new(g))),
{
    if color_of(g.left) == Color::Black {
        assert(no_red_red(g.left));
    } else {
        let p = *g.left.unwrap();
        let outer = color_of(p.left) == Color::Red;
        let inner = color_of(p.right) == Color::Red;
        if !outer && !inner {
            assert(no_red_red(g.left));
        } else {
            assert(!no_red_red(g.left));
            assert(g.color == Color::Black);
            assert(balanced(g.left) && balanced(g.right));
            assert(black_height(g.left) == black_height(p.left));
            assert(balanced(p.left) && balanced(p.right));
            if color_of(g.right) == Color::Red {
                let u = *g.right.unwrap();
                lemma_painted(p, Color::Black);
                lemma_painted(u, Color::Black);
                assert(no_red_red(g.right));
                assert(black_height(g.right) == black_height(u.left));
            } else if inner {
                lemma_fixup_left_inner(g);
            } else {
                lemma_fixup_left_outer(g);
            }
        }
    }
}

/// The repair by two rotations, for a red inner grandchild below a red left
/// child and beside a black right child, settles the subtree.
pub proof fn lemma_fixup_left_inner(g: Node)
    requires
        unsettled_left(g),
        g.color == Color::Black,
        color_of(g.left) == Color::Red,
        color_of(g.left.unwrap().right) == Color::Red,
        color_of(g.right) == Color::Black,
    ensures
        settled(fixup_left(g), g),
        keys(Some(Box::new(fixup_left(g)))) =~= keys(Some(Box::new(g))),
{
    let p = *g.left.unwrap();
    let x = *p.right.unwrap();
    let inside = Node { val: p.val, color: Color::Red, left: p.left, right: x.left };
    let top = rotated_left(p);
    let outside = Node { val: g.val, color: Color::Red, left: x.right, right: g.right };
    let m = Node {
        val: g.val,
        color: Color::Red,
        left: Some(Box::new(painted(top, Color::Black))),
        right: g.right,
    };
    let r = rotated_right(m);
    assert(r == fixup_left(g));
    assert(r.left == Some(Box::new(inside)));
    assert(r.right == Some(Box::new(outside)));
    lemma_rotated_left(p);
    lemma_painted(top, Color::Black);
    assert(keys(Some(Box::new(m))) =~= keys(Some(Box::new(g))));
    assert(ordered(Some(Box::new(m))));
    lemma_rotated_right(m);
    // black heights
    assert(balanced(g.left) && balanced(g.right));
    assert(black_height(g.left) == black_height(g.right));
    assert(black_height(g.left) == black_height(p.left));
    assert(balanced(p.left) && balanced(p.right));
    assert(black_height(p.left) == black_height(p.right));
    assert(black_height(p.right) == black_height(x.left));
    assert(balanced(x.left) && balanced(x.right));
    assert(black_height(x.left) == black_height(x.right));
    assert(black_height(Some(Box::new(inside))) == black_height(p.left));
    assert(black_height(Some(Box::new(outside))) == black_height(x.right));
    assert(balanced(Some(Box::new(inside))));
    assert(balanced(Some(Box::new(outside))));
    assert(balanced(Some(Box::new(r))));
    assert(black_height(Some(Box::new(r))) == black_height(p.left) + 1);
    assert(black_height(Some(Box::new(g))) == black_height(g.left) + 1);
    // colors
    assert(no_red_red(p.left) && no_red_red(p.right));
    assert(no_red_red(x.left) && no_red_red(x.right));
    assert(color_of(x.left) == Color::Black && color_of(x.right) == Color::Black);
    assert(color_of(p.left) == Color::Black);
    assert(no_red_red(Some(Box::new(inside))));
    assert(no_red_red(Some(Box::new(outside))));
    assert(no_red_red(Some(Box::new(r))));
}

/// The repair by one rotation, for a red outer grandchild below a red left
/// child and beside a black right child, settles the subtree.
pub proof fn lemma_fixup_left_outer(g: Node)
    requires
        unsettled_left(g),
        g.color == Color::Black,
        color_of(g.left) == Color::Red,
        color_of(g.left.unwrap().left) == Color::Red,
        color_of(g.left.unwrap().right) == Color::Black,
        color_of(g.right) == Color::Black,
    ensures
        settled(fixup_left(g), g),
        keys(Some(Box::new(fixup_left(g)))) =~= keys(Some(Box::new(g))),
{
    let p = *g.left.unwrap();
    let outside = Node { val: g.val, color: Color::Red, left: p.right, right: g.right };
    let m = Node {
        val: g.val,
        color: Color::Red,
        left: Some(Box::new(painted(p, Color::Black))),
        right: g.right,
    };
    let r = rotated_right(m);
    assert(r == fixup_left(g));
    assert(r.left == p.left);
    assert(r.right == Some(Box::new(outside)));
    lemma_painted(p, Color::Black);
    assert(keys(Some(Box::new(m))) =~= keys(Some(Box::new(g))));
    assert(ordered(Some(Box::new(m))));
    lemma_rotated_right(m);
    // black heights
    assert(balanced(g.left) && balanced(g.right));
    assert(black_height(g.left) == black_height(g.right));
    assert(black_height(g.left) == black_height(p.left));
    assert(balanced(p.left) && balanced(p.right));
    assert(black_height(p.left) == black_height(p.right));
    assert(black_height(Some(Box::new(outside))) == black_height(p.right));
    assert(balanced(Some(Box::new(outside))));
    assert(balanced(Some(Box::new(r))));
    assert(black_height(Some(Box::new(r))) == black_height(p.left) + 1);
    assert(black_height(Some(Box::new(g))) == black_height(g.left) + 1);
    // colors
    assert(no_red_red(p.left) && no_red_red(p.right));
    assert(no_red_red(Some(Box::new(outside))));
    assert(no_red_red(Some(Box::new(r))));
}

/// What the repair on the left side of `g` costs: one read for the color of
/// the left child, two more for those of its children if it is red, one more
/// for the right child of `g` if a grandchild is red too, and then nothing
/// more for the recoloring, or a write and one or two rotations.
pub open spec fn fixup_left_cost(g: Node) -> Cost {
    if color_of(g.left) == Color::Black {
        cost(0, 1, 0)
    } else {
        let p = *g.left.unwrap();
        let outer = color_of(p.left) == Color::Red;
        let inner = color_of(p.right) == Color::Red;
        if !outer && !inner {
            cost(0, 3, 0)
        } else if color_of(g.right) == Color::Red {
            cost(0, 4, 0)
        } else if inner {
            cost(0, 4, 1).plus(rotation_cost()).plus(rotation_cost())
        } else {
            cost(0, 4, 1).plus(rotation_cost())
        }
    }
}

/// Repairs a red node with a red child in the left subtree of `g`, seen from
/// `g`: by recoloring when the right child of `g` is red too, else by rotating.
pub fn insert_fixup_left(g: Box<Node>, stats: &mut Stats) -> (r: Box<Node>)
    ensures
        *r == fixup_left(*g),
        final(stats).charged(*old(stats), fixup_left_cost(*g)),
{
    proof {
        reveal(Stats::charged);
    }
    let mut g = g;
    stats.read();
    if color(&g.left) == Color::Black {
        return g;
    }
    let mut p = g.left.take().unwrap();
    stats.read();
    let outer = color(&p.left) == Color::Red;
    stats.read();
    let inner = color(&p.right) == Color::Red;
    if !outer && !inner {
        g.left = Some(p);
        return g;
    }
    stats.read();
    if color(&g.right) == Color::Red {
        let mut uncle = g.right.take().unwrap();
        p.color = Color::Black;
        uncle.color = Color::Black;
        g.color = Color::Red;
        g.left = Some(p);
        g.right = Some(uncle);
        g
    } else {
        if inner {
            p = left_rotate(p, stats);
        }
        p.color = Color::Black;
        g.color = Color::Red;
        stats.swap();
        g.left = Some(p);
        right_rotate(g, stats)
    }
}

/// The subtree at `g` as an insertion into its right subtree leaves it: ordered
/// and balanced, with the color rules kept on the left and, but for the root
/// of the right subtree, on the right.
pub open spec fn unsettled_right(g: Node) -> bool {
    &&& ordered(Some(Box::new(g)))
    &&& balanced(Some(Box::new(g)))
    &&& no_red_red(g.left)
    &&& nearly(g.right)
    &&& (g.color == Color::Red ==> no_red_red(g.right) && color_of(g.left) == Color::Black)
}

/// The subtree at `g` after the repair on its right side. Where the right
/// child `p` is red and has a red child: if the left child of `g` is red too,
/// both children turn black and `g` red; else `p` turns black, `g` red, and
/// `p` is rotated above `g`, after its red child was rotated above it if that
/// is the inner one. Otherwise `g` stays as it is.
pub open spec fn fixup_right(g: Node) -> Node {
    if color_of(g.right) == Color::Black {
        g
    } else {
        let p = *g.right.unwrap();
        let outer = color_of(p.right) == Color::Red;
        let inner = color_of(p.left) == Color::Red;
        if !outer && !inner {
            g
        } else if color_of(g.left) == Color::Red {
            Node {
                val: g.val,
                color: Color::Red,
                right: Some(Box::new(painted(p, Color::Black))),
                left: Some(Box::new(painted(*g.left.unwrap(), Color::Black))),
            }
        } else {
            let top = if inner {
                rotated_right(p)
            } else {
                p
            };
            rotated_left(
                Node {
                    val: g.val,
                    color: Color::Red,
                    right: Some(Box::new(painted(top, Color::Black))),
                    left: g.left,
                },
            )
        }
    }
}

/// The repair on the right side settles the subtree.
pub proof fn lemma_fixup_right(g: Node)
    requires
        unsettled_right(g),
    ensures
        settled(fixup_right(g), g),
        keys(Some(Box::new(fixup_right(g)))) =~= keys(Some(Box::new(g))),
{
    if color_of(g.right) == Color::Black {
        assert(no_red_red(g.right));
    } else {
        let p = *g.right.unwrap();
        let outer = color_of(p.right) == Color::Red;
        let inner = color_of(p.left) == Color::Red;
        if !outer && !inner {
            assert(no_red_red(g.right));
        } else {
            assert(!no_red_red(g.right));
            assert(g.color == Color::Black);
            assert(balanced(g.right) && balanced(g.left));
            assert(black_height(g.right) == black_height(p.right));
            assert(balanced(p.right) && balanced(p.left));
            if color_of(g.left) == Color::Red {
                let u = *g.left.unwrap();
                lemma_painted(p, Color::Black);
                lemma_painted(u, Color::Black);
                assert(no_red_red(g.left));
                assert(black_height(g.left) == black_height(u.right));
            } else if inner {
                lemma_fixup_right_inner(g);
            } else {
                lemma_fixup_right_outer(g);
            }
        }
    }
}

/// The repair by two rotations, for a red inner grandchild below a red right
/// child and beside a black left child, settles the subtree.
pub proof fn lemma_fixup_right_inner(g: Node)
    requires
        unsettled_right(g),
        g.color == Color::Black,
        color_of(g.right) == Color::Red,
        color_of(g.right.unwrap().left) == Color::Red,
        color_of(g.left) == Color::Black,
    ensures
        settled(fixup_right(g), g),
        keys(Some(Box::new(fixup_right(g)))) =~= keys(Some(Box::new(g))),
{
    let p = *g.right.unwrap();
    let x = *p.left.unwrap();
    let inside = Node { val: p.val, color: Color::Red, right: p.right, left: x.right };
    let top = rotated_right(p);
    let outside = Node { val: g.val, color: Color::Red, right: x.left, left: g.left };
    let m = Node {
        val: g.val,
        color: Color::Red,
        right: Some(Box::new(painted(top, Color::Black))),
        left: g.left,
    };
    let r = rotated_left(m);
    assert(r == fixup_right(g));
    assert(r.right == Some(Box::new(inside)));
    assert(r.left == Some(Box::new(outside)));
    lemma_rotated_right(p);
    lemma_painted(top, Color::Black);
    assert(keys(Some(Box::new(m))) =~= keys(Some(Box::new(g))));
    assert(ordered(Some(Box::new(m))));
    lemma_rotated_left(m);
    // black heights
    assert(balanced(g.right) && balanced(g.left));
    assert(black_height(g.right) == black_height(g.left));
    assert(black_height(g.right) == black_height(p.right));
    assert(balanced(p.right) && balanced(p.left));
    assert(black_height(p.right) == black_height(p.left));
    assert(black_height(p.left) == black_height(x.right));
    assert(balanced(x.right) && balanced(x.left));
    assert(black_height(x.right) == black_height(x.left));
    assert(black_height(Some(Box::new(inside))) == black_height(p.right));
    assert(black_height(Some(Box::new(outside))) == black_height(x.left));
    assert(balanced(Some(Box::new(inside))));
    assert(balanced(Some(Box::new(outside))));
    assert(balanced(Some(Box::new(r))));
    assert(black_height(Some(Box::new(r))) == black_height(p.right) + 1);
    assert(black_height(Some(Box::new(g))) == black_height(g.right) + 1);
    // colors
    assert(no_red_red(p.right) && no_red_red(p.left));
    assert(no_red_red(x.right) && no_red_red(x.left));
    assert(color_of(x.right) == Color::Black && color_of(x.left) == Color::Black);
    assert(color_of(p.right) == Color::Black);
    assert(no_red_red(Some(Box::new(inside))));
    assert(no_red_red(Some(Box::new(outside))));
    assert(no_red_red(Some(Box::new(r))));
}

/// The repair by one rotation, for a red outer grandchild below a red right
/// child and beside a black left child, settles the subtree.
pub proof fn lemma_fixup_right_outer(g: Node)
    requires
        unsettled_right(g),
        g.color == Color::Black,
        color_of(g.right) == Color::Red,
        color_of(g.right.unwrap().right) == Color::Red,
        color_of(g.right.unwrap().left) == Color::Black,
        color_of(g.left) == Color::Black,
    ensures
        settled(fixup_right(g), g),
        keys(Some(Box::new(fixup_right(g)))) =~= keys(Some(Box::new(g))),
{
    let p = *g.right.unwrap();
    let outside = Node { val: g.val, color: Color::Red, right: p.left, left: g.left };
    let m = Node {
        val: g.val,
        color: Color::Red,
        right: Some(Box::new(painted(p, Color::Black))),
        left: g.left,
    };
    let r = rotated_left(m);
    assert(r == fixup_right(g));
    assert(r.right == p.right);
    assert(r.left == Some(Box::new(outside)));
    lemma_painted(p, Color::Black);
    assert(keys(Some(Box::new(m))) =~= keys(Some(Box::new(g))));
    assert(ordered(Some(Box::new(m))));
    lemma_rotated_left(m);
    // black heights
    assert(balanced(g.right) && balanced(g.left));
    assert(black_height(g.right) == black_height(g.left));
    assert(black_height(g.right) == black_height(p.right));
    assert(balanced(p.right) && balanced(p.left));
    assert(black_height(p.right) == black_height(p.left));
    assert(black_height(Some(Box::new(outside))) == black_height(p.left));
    assert(balanced(Some(Box::new(outside))));
    assert(balanced(Some(Box::new(r))));
    assert(black_height(Some(Box::new(r))) == black_height(p.right) + 1);
    assert(black_height(Some(Box::new(g))) == black_height(g.right) + 1);
    // colors
    assert(no_red_red(p.right) && no_red_red(p.left));
    assert(no_red_red(Some(Box::new(outside))));
    assert(no_red_red(Some(Box::new(r))));
}

/// What the repair on the right side of `g` costs: one read for the color of
/// the right child, two more for those of its children if it is red, one more
/// for the left child of `g` if a grandchild is red too, and then nothing
/// more for the recoloring, or a write and one or two rotations.
pub open spec fn fixup_right_cost(g: Node) -> Cost {
    if color_of(g.right) == Color::Black {
        cost(0, 1, 0)
    } else {
        let p = *g.right.unwrap();
        let outer = color_of(p.right) == Color::Red;
        let inner = color_of(p.left) == Color::Red;
        if !outer && !inner {
            cost(0, 3, 0)
        } else if color_of(g.left) == Color::Red {
            cost(0, 4, 0)
        } else if inner {
            cost(0, 4, 1).plus(rotation_cost()).plus(rotation_cost())
        } else {
            cost(0, 4, 1).plus(rotation_cost())
        }
    }
}

/// Repairs a red node with a red child in the right subtree of `g`, seen from
/// `g`: by recoloring when the left child of `g` is red too, else by rotating.
pub fn insert_fixup_right(g: Box<Node>, stats: &mut Stats) -> (r: Box<Node>)
    ensures
        *r == fixup_right(*g),
        final(stats).charged(*old(stats), fixup_right_cost(*g)),
{
    proof {
        reveal(Stats::charged);
    }
    let mut g = g;
    stats.read();
    if color(&g.right) == Color::Black {
        return g;
    }
    let mut p = g.right.take().unwrap();
    stats.read();
    let outer = color(&p.right) == Color::Red;
    stats.read();
    let inner = color(&p.left) == Color::Red;
    if !outer && !inner {
        g.right = Some(p);
        return g;
    }
    stats.read();
    if color(&g.left) == Color::Red {
        let mut uncle = g.left.take().unwrap();
        p.color = Color::Black;
        uncle.color = Color::Black;
        g.color = Color::Red;
        g.right = Some(p);
        g.left = Some(uncle);
        g
    } else {
        if inner {
            p = right_rotate(p, stats);
        }
        p.color = Color::Black;
        g.color = Color::Red;
        stats.swap();
        g.right = Some(p);
        left_rotate(g, stats)
    }
}

/// The node `n` with `val` put into the subtree on the side of the descent:
/// as a red leaf in place of an absent child.
pub open spec fn sown(n: Node, val: usize) -> Node
    decreases n, 0nat,
{
    if val < n.val {
        Node {
            val: n.val,
            color: n.color,
            left: Some(
                Box::new(
                    match n.left {
                        None => leaf(val),
                        Some(l) => grown(*l, val),
                    },
                ),
            ),
            right: n.right,
        }
    } else {
        Node {
            val: n.val,
            color: n.color,
            left: n.left,
            right: Some(
                Box::new(
                    match n.right {
                        None => leaf(val),
                        Some(r) => grown(*r, val),
                    },
                ),
            ),
        }
    }
}

/// The subtree at `n` with `val` put in: a red leaf hangs where the descent
/// ends (it turns left at larger keys, right at all others), and each node on
/// the way back is repaired on the side the descent took.
pub open spec fn grown(n: Node, val: usize) -> Node
    decreases n, 1nat,
{
    if val < n.val {
        fixup_left(sown(n, val))
    } else {
        fixup_right(sown(n, val))
    }
}

/// What it costs to put `val` into the subtree at `n`: at each node of the
/// descent a comparison, a read and a write for the link followed, and the
/// repair on the way back.
pub open spec fn grown_cost(n: Node, val: usize) -> Cost
    decreases n,
{
    let below = match (if val < n.val {
        n.left
    } else {
        n.right
    }) {
        None => cost(0, 0, 0),
        Some(c) => grown_cost(*c, val),
    };
    cost(1, 1, 1).plus(below).plus(
        if val < n.val {
            fixup_left_cost(sown(n, val))
        } else {
            fixup_right_cost(sown(n, val))
        },
    )
}

/// What it costs to put `val` into the tree: one write for the first node of
/// an empty tree, and else one read for the root and the insertion below it.
pub open spec fn insert_cost(t: Link, val: usize) -> Cost {
    match t {
        None => cost(0, 0, 1),
        Some(n) => cost(0, 1, 0).plus(grown_cost(*n, val)),
    }
}

/// An insertion compares once for each node that the descent passes.
pub proof fn lemma_insert_comps(t: Link, val: usize)
    ensures
        insert_cost(t, val).comps == insert_path_len(t, val),
{
    match t {
        None => {},
        Some(n) => {
            lemma_grown_comps(*n, val);
        },
    }
}

/// An insertion below a node compares once for each node that the descent
/// passes.
pub proof fn lemma_grown_comps(n: Node, val: usize)
    ensures
        grown_cost(n, val).comps == insert_path_len(Some(Box::new(n)), val),
    decreases n,
{
    let side = if val < n.val {
        n.left
    } else {
        n.right
    };
    match side {
        None => {
            assert(insert_path_len(None, val) == 0);
        },
        Some(c) => {
            lemma_grown_comps(*c, val);
        },
    }
}

/// The tree with `val` put in and its root painted black.
pub open spec fn inserted(t: Link, val: usize) -> Link {
    match t {
        None => Some(Box::new(painted(leaf(val), Color::Black))),
        Some(n) => Some(Box::new(painted(grown(*n, val), Color::Black))),
    }
}

/// Putting a key into a valid subtree adds the key and settles the subtree.
pub proof fn lemma_grown(n: Node, val: usize)
    requires
        valid(Some(Box::new(n))),
    ensures
        settled(grown(n, val), n),
        keys(Some(Box::new(grown(n, val)))) =~= keys(Some(Box::new(n))).insert(val),
    decreases n,
{
    lemma_parts(n);
    lemma_leaf(val);
    let m = sown(n, val);
    if val < n.val {
        if n.left.is_some() {
            lemma_grown(*n.left.unwrap(), val);
        }
        assert(keys(m.left) =~= keys(n.left).insert(val));
        assert forall|k: usize| keys(m.left).count(k) > 0 implies k <= n.val by {
            if k != val {
                assert(keys(n.left).count(k) > 0);
            }
        }
        assert(keys(Some(Box::new(m))) =~= keys(Some(Box::new(n))).insert(val));
        assert(unsettled_left(m));
        lemma_fixup_left(m);
    } else {
        if n.right.is_some() {
            lemma_grown(*n.right.unwrap(), val);
        }
        assert(keys(m.right) =~= keys(n.right).insert(val));
        assert forall|k: usize| keys(m.right).count(k) > 0 implies n.val <= k by {
            if k != val {
                assert(keys(n.right).count(k) > 0);
            }
        }
        assert(keys(Some(Box::new(m))) =~= keys(Some(Box::new(n))).insert(val));
        assert(unsettled_right(m));
        lemma_fixup_right(m);
    }
}

/// Putting a key into a valid tree gives a valid tree with a black root that
/// holds the key besides those it held.
pub proof fn lemma_inserted(t: Link, val: usize)
    requires
        valid(t),
    ensures
        valid(inserted(t, val)),
        color_of(inserted(t, val)) == Color::Black,
        keys(inserted(t, val)) =~= keys(t).insert(val),
{
    match t {
        None => {
            lemma_leaf(val);
            lemma_painted(leaf(val), Color::Black);
        },
        Some(n) => {
            lemma_grown(*n, val);
            lemma_painted(grown(*n, val), Color::Black);
        },
    }
}

/// Puts `val` below `node` where the descent ends (to the left of larger keys,
/// to the right of all others) as a red leaf, and repairs the color rules at
/// each node on the way back; only the returned root may still be a red node
/// with a red child.
pub fn insert_helper(node: Box<Node>, val: usize, stats: &mut Stats) -> (r: Box<Node>)
    ensures
        *r == grown(*node, val),
        final(stats).charged(*old(stats), grown_cost(*node, val)),
    decreases node,
{
    let mut node = node;
    let ghost n0 = *node;
    let ghost s0 = *stats;
    let ghost below = match (if val < n0.val {
        n0.left
    } else {
        n0.right
    }) {
        None => cost(0, 0, 0),
        Some(c) => grown_cost(*c, val),
    };
    stats.comp();
    if val < node.val {
        stats.read();
        let ghost s1 = *stats;
        let child = match node.left.take() {
            None => {
                proof {
                    lemma_charged_nothing(s1);
                }
                new_pointer(val)
            },
            Some(left) => insert_helper(left, val, stats),
        };
        let ghost s2 = *stats;
        stats.swap();
        let ghost s3 = *stats;
        node.left = Some(child);
        let r = insert_fixup_left(node, stats);
        proof {
            assert(s1.charged(s0, cost(1, 1, 0))) by {
                reveal(Stats::charged);
            }
            lemma_charged_twice(s0, s1, s2, cost(1, 1, 0), below);
            lemma_charged_twice(s0, s2, s3, cost(1, 1, 0).plus(below), cost(0, 0, 1));
            lemma_charged_twice(
                s0,
                s3,
                *stats,
                cost(1, 1, 0).plus(below).plus(cost(0, 0, 1)),
                fixup_left_cost(sown(n0, val)),
            );
        }
        r
    } else {
        stats.read();
        let ghost s1 = *stats;
        let child = match node.right.take() {
            None => {
                proof {
                    lemma_charged_nothing(s1);
                }
                new_pointer(val)
            },
            Some(right) => insert_helper(right, val, stats),
        };
        let ghost s2 = *stats;
        stats.swap();
        let ghost s3 = *stats;
        node.right = Some(child);
        let r = insert_fixup_right(node, stats);
        proof {
            assert(s1.charged(s0, cost(1, 1, 0))) by {
                reveal(Stats::charged);
            }
            lemma_charged_twice(s0, s1, s2, cost(1, 1, 0), below);
            lemma_charged_twice(s0, s2, s3, cost(1, 1, 0).plus(below), cost(0, 0, 1));
            lemma_charged_twice(
                s0,
                s3,
                *stats,
                cost(1, 1, 0).plus(below).plus(cost(0, 0, 1)),
                fixup_right_cost(sown(n0, val)),
            );
        }
        r
    }
}

} // verus!
