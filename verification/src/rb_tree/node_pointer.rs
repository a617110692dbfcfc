//! Small operations on links between nodes.

use vstd::prelude::*;
use crate::rb_tree::tree_node::{Color, Link, Node, color_of, leaf};

verus! {

/// A freshly allocated red leaf.
pub fn new_pointer(val: usize) -> (p: Box<Node>)
    ensures
        *p == leaf(val),
{
    Box::new(Node::new(val))
}

/// The color of the node behind a link; an absent child counts as black.
pub fn color(node: &Link) -> (c: Color)
    ensures
        c == color_of(*node),
{
    match node {
        Some(node) => node.color,
        None => Color::Black,
    }
}

} // verus!
