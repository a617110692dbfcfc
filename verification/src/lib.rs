//! Ordered containers over `usize` keys in three balancing strategies: an
//! unbalanced binary search tree, a red-black tree and a splay tree. Each
//! offers `insert`, `delete` and `height`, keeps equal keys side by side, and
//! counts what an operation costs in key comparisons, link reads and link
//! writes.
//!
//! A tree owns its nodes through its links; a node has no link back to its
//! parent. What a rotation or a repair has to do above a node is done when
//! the descent that passed the node returns to it.
//!
//! Every operation is specified by the tree it leaves: the contracts name
//! the resulting shape, the keys it holds and the exact cost counted.

pub mod bin_tree;
pub mod experiment;
pub mod order;
pub mod rb_tree;
pub mod road;
pub mod splay_tree;
