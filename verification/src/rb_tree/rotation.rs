//! Rotations and recoloring: the local restructuring that the repairs are
//! made of.

use vstd::prelude::*;
use crate::experiment::{Cost, Stats, cost};
use crate::rb_tree::tree_node::{Color, Link, Node, painted, rotated_left, rotated_right};

verus! {

/// What a rotation costs: one read for the child that comes up and two
/// writes to hand over the subtree between the two nodes and to hang the
/// former parent below.
pub open spec fn rotation_cost() -> Cost {
    cost(0, 1, 2)
}

/// Promotes the right child of `x` to the place of `x`; `x` becomes its left
/// child and takes over the promoted node's former left subtree.
pub fn left_rotate(x: Box<Node>, stats: &mut Stats) -> (y: Box<Node>)
    requires
        x.right.is_some(),
    ensures
        *y == rotated_left(*x),
        final(stats).charged(*old(stats), rotation_cost()),
{
    proof {
        reveal(Stats::charged);
    }
    let mut x = x;
    stats.read();
    let mut y = x.right.take().unwrap();
    stats.swap();
    x.right = y.left.take();
    stats.swap();
    y.left = Some(x);
    y
}

/// Promotes the left child of `x` to the place of `x`; `x` becomes its right
/// child and takes over the promoted node's former right subtree.
pub fn right_rotate(x: Box<Node>, stats: &mut Stats) -> (y: Box<Node>)
    requires
        x.left.is_some(),
    ensures
        *y == rotated_right(*x),
        final(stats).charged(*old(stats), rotation_cost()),
{
    proof {
        reveal(Stats::charged);
    }
    let mut x = x;
    stats.read();
    let mut y = x.left.take().unwrap();
    stats.swap();
    x.left = y.right.take();
    stats.swap();
    y.right = Some(x);
    y
}

/// Gives the node behind a link another color.
pub fn paint(link: &mut Link, c: Color)
    requires
        old(link).is_some(),
    ensures
        *final(link) == Some(Box::new(painted(*old(link).unwrap(), c))),
{
    let mut n = link.take().unwrap();
    n.color = c;
    *link = Some(n);
}

} // verus!
