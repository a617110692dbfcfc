//! Nodes of the splay tree and the restructuring that moves a key to the root.

use vstd::prelude::*;
use vstd::multiset::Multiset;
use vstd::seq_lib::{to_multiset_contains, to_multiset_len};
use vstd::string::StringExecFns;
use crate::experiment::{Cost, Stats, cost, lemma_charged_nothing, lemma_charged_twice};
use crate::order::{lemma_join_multiset, lemma_sorted_join, sorted};
use crate::road::{decimal, key_text, line_start, start_line};

verus! {

/// A node owns its two subtrees.
pub struct SplayNode {
    pub value: usize,
    pub left: Option<Box<SplayNode>>,
    pub right: Option<Box<SplayNode>>,
}

/// A subtree, or its absence.
pub type Link = Option<Box<SplayNode>>;

/// The keys held below a link, with their multiplicities.
pub open spec fn keys(t: Link) -> Multiset<usize>
    decreases t,
{
    match t {
        None => Multiset::empty(),
        Some(n) => keys(n.left).add(keys(n.right)).insert(n.value),
    }
}

/// The keys below a link as a left-to-right traversal meets them.
pub open spec fn in_order(t: Link) -> Seq<usize>
    decreases t,
{
    match t {
        None => Seq::empty(),
        Some(n) => in_order(n.left).push(n.value) + in_order(n.right),
    }
}

/// Search-tree ordering: no key in a left subtree exceeds the node's key and
/// no key in a right subtree is below it.
pub open spec fn ordered(t: Link) -> bool
    decreases t,
{
    match t {
        None => true,
        Some(n) => {
            &&& ordered(n.left)
            &&& ordered(n.right)
            &&& forall|k: usize| #[trigger] keys(n.left).count(k) > 0 ==> k <= n.value
            &&& forall|k: usize| #[trigger] keys(n.right).count(k) > 0 ==> n.value <= k
        },
    }
}

/// The number of nodes on the longest path from the link down to an absent child.
pub open spec fn height(t: Link) -> nat
    decreases t,
{
    match t {
        None => 0,
        Some(n) => {
            let l = height(n.left);
            let r = height(n.right);
            if l >= r {
                l + 1
            } else {
                r + 1
            }
        },
    }
}

/// The node that stands in the place of `x` once its right child is promoted.
pub open spec fn rotated_left(x: SplayNode) -> SplayNode
    recommends
        x.right.is_some(),
{
    let y = x.right.unwrap();
    SplayNode {
        value: y.value,
        left: Some(Box::new(SplayNode { value: x.value, left: x.left, right: y.left })),
        right: y.right,
    }
}

/// The node that stands in the place of `x` once its left child is promoted.
pub open spec fn rotated_right(x: SplayNode) -> SplayNode
    recommends
        x.left.is_some(),
{
    let y = x.left.unwrap();
    SplayNode {
        value: y.value,
        left: y.left,
        right: Some(Box::new(SplayNode { value: x.value, left: y.right, right: x.right })),
    }
}

/// The subtree at `r` is split around `value`: no key to the left of the root
/// exceeds it, none to the right is below it, and if the subtree holds
/// `value` at all, the root does.
pub open spec fn splayed(r: SplayNode, value: usize) -> bool {
    &&& forall|k: usize| #[trigger] keys(r.left).count(k) > 0 ==> k <= value
    &&& forall|k: usize| #[trigger] keys(r.right).count(k) > 0 ==> value <= k
    &&& keys(Some(Box::new(r))).count(value) > 0 ==> r.value == value
}

/// The subtree at `n` once its left child, if it has one, is promoted.
pub open spec fn turned_right(n: SplayNode) -> SplayNode {
    if n.left.is_some() {
        rotated_right(n)
    } else {
        n
    }
}

/// The subtree at `n`, whose left child `l` lies on the way to `value`, with
/// the node nearest to `value` moved to its root: by two right rotations when
/// the search goes left twice, by a left rotation at `l` and a right rotation
/// at `n` when it turns right at `l`, and by one right rotation when `l`
/// holds `value`.
pub open spec fn splayed_left(n: SplayNode, l: SplayNode, value: usize) -> SplayNode
    decreases l, 0nat,
{
    if value < l.value {
        let below = match l.left {
            None => None,
            Some(b) => Some(Box::new(splay_of(*b, value))),
        };
        let l2 = SplayNode { value: l.value, left: below, right: l.right };
        turned_right(
            turned_right(SplayNode { value: n.value, left: Some(Box::new(l2)), right: n.right }),
        )
    } else if value > l.value {
        let below = match l.right {
            None => None,
            Some(b) => Some(Box::new(splay_of(*b, value))),
        };
        let l2 = turned_left(SplayNode { value: l.value, left: l.left, right: below });
        turned_right(SplayNode { value: n.value, left: Some(Box::new(l2)), right: n.right })
    } else {
        turned_right(SplayNode { value: n.value, left: Some(Box::new(l)), right: n.right })
    }
}

/// The subtree at `n` once its right child, if it has one, is promoted.
pub open spec fn turned_left(n: SplayNode) -> SplayNode {
    if n.right.is_some() {
        rotated_left(n)
    } else {
        n
    }
}

/// The subtree at `n`, whose right child `r` lies on the way to `value`, with
/// the node nearest to `value` moved to its root: by two left rotations when
/// the search goes right twice, by a right rotation at `r` and a left rotation
/// at `n` when it turns left at `r`, and by one left rotation when `r`
/// holds `value`.
pub open spec fn splayed_right(n: SplayNode, r: SplayNode, value: usize) -> SplayNode
    decreases r, 0nat,
{
    if value > r.value {
        let below = match r.right {
            None => None,
            Some(b) => Some(Box::new(splay_of(*b, value))),
        };
        let r2 = SplayNode { value: r.value, left: r.left, right: below };
        turned_left(
            turned_left(SplayNode { value: n.value, left: n.left, right: Some(Box::new(r2)) }),
        )
    } else if value < r.value {
        let below = match r.left {
            None => None,
            Some(b) => Some(Box::new(splay_of(*b, value))),
        };
        let r2 = turned_right(SplayNode { value: r.value, left: below, right: r.right });
        turned_left(SplayNode { value: n.value, left: n.left, right: Some(Box::new(r2)) })
    } else {
        turned_left(SplayNode { value: n.value, left: n.left, right: Some(Box::new(r)) })
    }
}

/// The subtree at `n` with the node nearest to `value` moved to its root:
/// the node holding `value` that a search meets first, and else the last
/// node that the search passes.
pub open spec fn splay_of(n: SplayNode, value: usize) -> SplayNode
    decreases n, 1nat,
{
    if value < n.value {
        match n.left {
            None => n,
            Some(l) => splayed_left(n, *l, value),
        }
    } else if value > n.value {
        match n.right {
            None => n,
            Some(r) => splayed_right(n, *r, value),
        }
    } else {
        n
    }
}

/// A left rotation keeps the keys, their traversal and the ordering.
pub proof fn lemma_rotated_left(x: SplayNode)
    requires
        x.right.is_some(),
    ensures
        keys(Some(Box::new(rotated_left(x)))) =~= keys(Some(Box::new(x))),
        in_order(Some(Box::new(rotated_left(x)))) =~= in_order(Some(Box::new(x))),
        ordered(Some(Box::new(x))) ==> ordered(Some(Box::new(rotated_left(x)))),
{
    let y = x.right.unwrap();
    let r = rotated_left(x);
    assert(keys(Some(Box::new(x))) =~= keys(x.left).add(keys(x.right)).insert(x.value));
    assert(keys(x.right) =~= keys(y.left).add(keys(y.right)).insert(y.value));
    assert(keys(r.left) =~= keys(x.left).add(keys(y.left)).insert(x.value));
    assert(keys(Some(Box::new(r))) =~= keys(r.left).add(keys(y.right)).insert(y.value));
    assert(in_order(Some(Box::new(x))) =~= in_order(x.left).push(x.value) + in_order(x.right));
    assert(in_order(x.right) =~= in_order(y.left).push(y.value) + in_order(y.right));
    assert(in_order(r.left) =~= in_order(x.left).push(x.value) + in_order(y.left));
    assert(in_order(Some(Box::new(r))) =~= in_order(r.left).push(y.value) + in_order(y.right));
    if ordered(Some(Box::new(x))) {
        assert(ordered(x.left) && ordered(x.right));
        assert(ordered(y.left) && ordered(y.right));
        assert(keys(x.right).count(y.value) > 0);
        assert(x.value <= y.value);
        assert forall|k: usize| #[trigger] keys(y.left).count(k) > 0 implies x.value <= k by {
            assert(keys(x.right).count(k) > 0);
        }
        assert(ordered(r.left));
        assert forall|k: usize| #[trigger] keys(r.left).count(k) > 0 implies k <= y.value by {
            if keys(x.left).count(k) > 0 {
            } else if keys(y.left).count(k) > 0 {
            } else {
                assert(k == x.value);
            }
        }
        assert(ordered(Some(Box::new(r))));
    }
}

/// A right rotation keeps the keys, their traversal and the ordering.
pub proof fn lemma_rotated_right(x: SplayNode)
    requires
        x.left.is_some(),
    ensures
        keys(Some(Box::new(rotated_right(x)))) =~= keys(Some(Box::new(x))),
        in_order(Some(Box::new(rotated_right(x)))) =~= in_order(Some(Box::new(x))),
        ordered(Some(Box::new(x))) ==> ordered(Some(Box::new(rotated_right(x)))),
{
    let y = x.left.unwrap();
    let r = rotated_right(x);
    assert(keys(Some(Box::new(x))) =~= keys(x.left).add(keys(x.right)).insert(x.value));
    assert(keys(x.left) =~= keys(y.left).add(keys(y.right)).insert(y.value));
    assert(keys(r.right) =~= keys(y.right).add(keys(x.right)).insert(x.value));
    assert(keys(Some(Box::new(r))) =~= keys(y.left).add(keys(r.right)).insert(y.value));
    assert(in_order(Some(Box::new(x))) =~= in_order(x.left).push(x.value) + in_order(x.right));
    assert(in_order(x.left) =~= in_order(y.left).push(y.value) + in_order(y.right));
    assert(in_order(r.right) =~= in_order(y.right).push(x.value) + in_order(x.right));
    assert(in_order(Some(Box::new(r))) =~= in_order(y.left).push(y.value) + in_order(r.right));
    if ordered(Some(Box::new(x))) {
        assert(ordered(x.right) && ordered(x.left));
        assert(ordered(y.right) && ordered(y.left));
        assert(keys(x.left).count(y.value) > 0);
        assert(y.value <= x.value);
        assert forall|k: usize| #[trigger] keys(y.right).count(k) > 0 implies k <= x.value by {
            assert(keys(x.left).count(k) > 0);
        }
        assert(ordered(r.right));
        assert forall|k: usize| #[trigger] keys(r.right).count(k) > 0 implies y.value <= k by {
            if keys(x.right).count(k) > 0 {
            } else if keys(y.right).count(k) > 0 {
            } else {
                assert(k == x.value);
            }
        }
        assert(ordered(Some(Box::new(r))));
    }
}

/// A left-to-right traversal meets exactly the keys below the link, and
/// meets them in non-decreasing order if the subtree is ordered.
pub proof fn lemma_in_order(t: Link)
    ensures
        in_order(t).to_multiset() =~= keys(t),
        in_order(t).len() == keys(t).len(),
        ordered(t) ==> sorted(in_order(t)),
    decreases t,
{
    to_multiset_len(in_order(t));
    match t {
        None => {
            assert(in_order(t).to_multiset().len() == 0);
        },
        Some(n) => {
            let a = in_order(n.left);
            let b = in_order(n.right);
            lemma_in_order(n.left);
            lemma_in_order(n.right);
            lemma_join_multiset(a, n.value, b);
            if ordered(t) {
                assert forall|i: int| 0 <= i < a.len() implies a[i] <= n.value by {
                    assert(a.contains(a[i]));
                    to_multiset_contains(a, a[i]);
                    assert(keys(n.left).count(a[i]) > 0);
                }
                assert forall|i: int| 0 <= i < b.len() implies n.value <= b[i] by {
                    assert(b.contains(b[i]));
                    to_multiset_contains(b, b[i]);
                    assert(keys(n.right).count(b[i]) > 0);
                }
                lemma_sorted_join(a, n.value, b);
            }
        },
    }
}

/// A subtree is no higher than it has nodes.
pub proof fn lemma_height_le_len(t: Link)
    ensures
        height(t) <= keys(t).len(),
    decreases t,
{
    match t {
        None => {},
        Some(n) => {
            lemma_height_le_len(n.left);
            lemma_height_le_len(n.right);
        },
    }
}

/// The subtrees of an ordered node are ordered and bounded by its key.
pub proof fn lemma_children(n: SplayNode)
    requires
        ordered(Some(Box::new(n))),
    ensures
        ordered(n.left),
        ordered(n.right),
        forall|k: usize| #[trigger] keys(n.left).count(k) > 0 ==> k <= n.value,
        forall|k: usize| #[trigger] keys(n.right).count(k) > 0 ==> n.value <= k,
        keys(Some(Box::new(n))) =~= keys(n.left).add(keys(n.right)).insert(n.value),
{
}

/// An ordered subtree is split around `value` at its root if the root holds
/// `value`, or has no child on the side on which `value` would be.
pub proof fn lemma_split_at_root(n: SplayNode, value: usize)
    requires
        ordered(Some(Box::new(n))),
    ensures
        value == n.value || (value < n.value && n.left.is_none()) || (value > n.value
            && n.right.is_none()) ==> splayed(n, value),
{
    lemma_children(n);
    if value < n.value && n.left.is_none() {
        assert(keys(n.left) =~= Multiset::empty());
        assert(keys(n.right).count(value) == 0);
        assert(keys(Some(Box::new(n))).count(value) == 0);
    } else if value > n.value && n.right.is_none() {
        assert(keys(n.right) =~= Multiset::empty());
        assert(keys(n.left).count(value) == 0);
        assert(keys(Some(Box::new(n))).count(value) == 0);
    }
}

/// Two nodes with the same key, whose subtrees hold the same keys and are
/// ordered alike, hold the same keys and are ordered alike.
pub proof fn lemma_same_keys(a: SplayNode, b: SplayNode)
    requires
        a.value == b.value,
        keys(a.left) =~= keys(b.left),
        keys(a.right) =~= keys(b.right),
        ordered(a.left) ==> ordered(b.left),
        ordered(a.right) ==> ordered(b.right),
    ensures
        keys(Some(Box::new(a))) =~= keys(Some(Box::new(b))),
        ordered(Some(Box::new(a))) ==> ordered(Some(Box::new(b))),
{
}

/// Promoting a left child that is split around `value`, below a node whose
/// key exceeds `value`, leaves the whole subtree split around `value`.
pub proof fn lemma_step_right(x: SplayNode, value: usize)
    requires
        x.left.is_some(),
        ordered(Some(Box::new(x))),
        value < x.value,
        splayed(*x.left.unwrap(), value),
    ensures
        splayed(rotated_right(x), value),
{
    reveal_with_fuel(keys, 3);
    reveal_with_fuel(ordered, 2);
    let y = x.left.unwrap();
    let r = rotated_right(x);
    assert forall|k: usize| keys(r.right).count(k) > 0 implies value <= k by {
        if keys(y.right).count(k) > 0 {
        } else if keys(x.right).count(k) > 0 {
        } else {
        }
    }
    if keys(Some(Box::new(r))).count(value) > 0 {
        assert(keys(x.right).count(value) == 0);
        assert(keys(x.left).count(value) > 0);
    }
}

/// Promoting a right child that is split around `value`, below a node whose
/// key is below `value`, leaves the whole subtree split around `value`.
pub proof fn lemma_step_left(x: SplayNode, value: usize)
    requires
        x.right.is_some(),
        ordered(Some(Box::new(x))),
        value > x.value,
        splayed(*x.right.unwrap(), value),
    ensures
        splayed(rotated_left(x), value),
{
    reveal_with_fuel(keys, 3);
    reveal_with_fuel(ordered, 2);
    let y = x.right.unwrap();
    let r = rotated_left(x);
    assert forall|k: usize| keys(r.left).count(k) > 0 implies k <= value by {
        if keys(y.left).count(k) > 0 {
        } else if keys(x.left).count(k) > 0 {
        } else {
        }
    }
    if keys(Some(Box::new(r))).count(value) > 0 {
        assert(keys(x.left).count(value) == 0);
        assert(keys(x.right).count(value) > 0);
    }
}

/// Splaying keeps the keys and their order and splits the subtree around
/// `value`: the root holds `value` if the subtree does, no key to its left
/// exceeds `value` and none to its right is below it.
pub proof fn lemma_splay_of(n: SplayNode, value: usize)
    requires
        ordered(Some(Box::new(n))),
    ensures
        keys(Some(Box::new(splay_of(n, value)))) =~= keys(Some(Box::new(n))),
        ordered(Some(Box::new(splay_of(n, value)))),
        splayed(splay_of(n, value), value),
    decreases n, 1nat,
{
    lemma_split_at_root(n, value);
    if value < n.value {
        match n.left {
            None => {},
            Some(l) => {
                lemma_splayed_left(n, *l, value);
            },
        }
    } else if value > n.value {
        match n.right {
            None => {},
            Some(r) => {
                lemma_splayed_right(n, *r, value);
            },
        }
    }
}

/// Splaying through the left child keeps the keys and their order and
/// splits the subtree around `value`.
pub proof fn lemma_splayed_left(n: SplayNode, l: SplayNode, value: usize)
    requires
        n.left == Some(Box::new(l)),
        ordered(Some(Box::new(n))),
        value < n.value,
    ensures
        keys(Some(Box::new(splayed_left(n, l, value)))) =~= keys(Some(Box::new(n))),
        ordered(Some(Box::new(splayed_left(n, l, value)))),
        splayed(splayed_left(n, l, value), value),
    decreases l, 0nat,
{
    lemma_children(n);
    lemma_children(l);
    if value < l.value {
        let below = match l.left {
            None => None,
            Some(b) => Some(Box::new(splay_of(*b, value))),
        };
        if l.left.is_some() {
            lemma_splay_of(*l.left.unwrap(), value);
        }
        let l2 = SplayNode { value: l.value, left: below, right: l.right };
        lemma_same_keys(l, l2);
        let m = SplayNode { value: n.value, left: Some(Box::new(l2)), right: n.right };
        lemma_same_keys(n, m);
        lemma_rotated_right(m);
        let first = rotated_right(m);
        if below.is_none() {
            assert(keys(l2.right).count(value) == 0);
            assert(keys(below) =~= Multiset::empty());
            assert(keys(Some(Box::new(l2))).count(value) == 0);
            assert(splayed(l2, value));
            lemma_step_right(m, value);
        } else {
            lemma_rotated_right(first);
            lemma_step_right(first, value);
        }
    } else if value > l.value {
        let below = match l.right {
            None => None,
            Some(b) => Some(Box::new(splay_of(*b, value))),
        };
        if l.right.is_some() {
            lemma_splay_of(*l.right.unwrap(), value);
        }
        let l1 = SplayNode { value: l.value, left: l.left, right: below };
        lemma_same_keys(l, l1);
        let l2 = turned_left(l1);
        if below.is_some() {
            lemma_rotated_left(l1);
            lemma_step_left(l1, value);
        } else {
            assert(keys(l1.left).count(value) == 0);
            assert(keys(below) =~= Multiset::empty());
            assert(keys(Some(Box::new(l1))).count(value) == 0);
            assert(splayed(l1, value));
        }
        let m = SplayNode { value: n.value, left: Some(Box::new(l2)), right: n.right };
        lemma_same_keys(n, m);
        lemma_rotated_right(m);
        lemma_step_right(m, value);
    } else {
        let m = SplayNode { value: n.value, left: Some(Box::new(l)), right: n.right };
        assert(m == n);
        lemma_split_at_root(l, value);
        lemma_rotated_right(n);
        lemma_step_right(n, value);
    }
}

/// Splaying through the right child keeps the keys and their order and
/// splits the subtree around `value`.
pub proof fn lemma_splayed_right(n: SplayNode, r: SplayNode, value: usize)
    requires
        n.right == Some(Box::new(r)),
        ordered(Some(Box::new(n))),
        value > n.value,
    ensures
        keys(Some(Box::new(splayed_right(n, r, value)))) =~= keys(Some(Box::new(n))),
        ordered(Some(Box::new(splayed_right(n, r, value)))),
        splayed(splayed_right(n, r, value), value),
    decreases r, 0nat,
{
    lemma_children(n);
    lemma_children(r);
    if value > r.value {
        let below = match r.right {
            None => None,
            Some(b) => Some(Box::new(splay_of(*b, value))),
        };
        if r.right.is_some() {
            lemma_splay_of(*r.right.unwrap(), value);
        }
        let r2 = SplayNode { value: r.value, right: below, left: r.left };
        lemma_same_keys(r, r2);
        let m = SplayNode { value: n.value, right: Some(Box::new(r2)), left: n.left };
        lemma_same_keys(n, m);
        lemma_rotated_left(m);
        let first = rotated_left(m);
        if below.is_none() {
            assert(keys(r2.left).count(value) == 0);
            assert(keys(below) =~= Multiset::empty());
            assert(keys(Some(Box::new(r2))).count(value) == 0);
            assert(splayed(r2, value));
            lemma_step_left(m, value);
        } else {
            lemma_rotated_left(first);
            lemma_step_left(first, value);
        }
    } else if value < r.value {
        let below = match r.left {
            None => None,
            Some(b) => Some(Box::new(splay_of(*b, value))),
        };
        if r.left.is_some() {
            lemma_splay_of(*r.left.unwrap(), value);
        }
        let r1 = SplayNode { value: r.value, right: r.right, left: below };
        lemma_same_keys(r, r1);
        let r2 = turned_right(r1);
        if below.is_some() {
            lemma_rotated_right(r1);
            lemma_step_right(r1, value);
        } else {
            assert(keys(r1.right).count(value) == 0);
            assert(keys(below) =~= Multiset::empty());
            assert(keys(Some(Box::new(r1))).count(value) == 0);
            assert(splayed(r1, value));
        }
        let m = SplayNode { value: n.value, right: Some(Box::new(r2)), left: n.left };
        lemma_same_keys(n, m);
        lemma_rotated_left(m);
        lemma_step_left(m, value);
    } else {
        let m = SplayNode { value: n.value, left: n.left, right: Some(Box::new(r)) };
        assert(m == n);
        lemma_split_at_root(r, value);
        lemma_rotated_left(n);
        lemma_step_left(n, value);
    }
}

/// A leaf is an ordered subtree that holds its one key.
pub proof fn lemma_leaf(value: usize)
    ensures
        ordered(Some(Box::new(SplayNode { value, left: None, right: None }))),
        keys(Some(Box::new(SplayNode { value, left: None, right: None })))
            =~= Multiset::empty().insert(value),
{
    reveal_with_fuel(ordered, 2);
    reveal_with_fuel(keys, 2);
}

/// The node `n` with `value` put into the subtree on the side of the
/// descent: as a leaf in place of an absent child.
pub open spec fn sown(n: SplayNode, value: usize) -> SplayNode
    decreases n, 0nat,
{
    if value < n.value {
        SplayNode {
            value: n.value,
            left: Some(
                Box::new(
                    match n.left {
                        None => SplayNode { value, left: None, right: None },
                        Some(l) => grown(*l, value),
                    },
                ),
            ),
            right: n.right,
        }
    } else {
        SplayNode {
            value: n.value,
            left: n.left,
            right: Some(
                Box::new(
                    match n.right {
                        None => SplayNode { value, left: None, right: None },
                        Some(r) => grown(*r, value),
                    },
                ),
            ),
        }
    }
}

/// The subtree at `n` with `value` put in: a leaf hangs where the descent
/// ends (it turns left at larger keys, right at all others), and each node on
/// the way back splays `value` to the root of its subtree.
pub open spec fn grown(n: SplayNode, value: usize) -> SplayNode
    decreases n, 1nat,
{
    splay_of(sown(n, value), value)
}

/// What it costs to put `value` into the subtree at `n`: at each node of the
/// descent a comparison, a read and a write for the link followed, and the
/// splay on the way back.
pub open spec fn grown_cost(n: SplayNode, value: usize) -> Cost
    decreases n,
{
    let below = match (if value < n.value {
        n.left
    } else {
        n.right
    }) {
        None => cost(0, 0, 0),
        Some(c) => grown_cost(*c, value),
    };
    cost(1, 1, 1).plus(below).plus(splay_cost(sown(n, value), value))
}

/// Putting a key into an ordered subtree adds the key, keeps the order and
/// leaves the key at the root.
pub proof fn lemma_grown(n: SplayNode, value: usize)
    requires
        ordered(Some(Box::new(n))),
    ensures
        keys(Some(Box::new(grown(n, value)))) =~= keys(Some(Box::new(n))).insert(value),
        ordered(Some(Box::new(grown(n, value)))),
        grown(n, value).value == value,
        splayed(grown(n, value), value),
    decreases n,
{
    lemma_children(n);
    lemma_leaf(value);
    let m = sown(n, value);
    if value < n.value {
        if n.left.is_some() {
            lemma_grown(*n.left.unwrap(), value);
        }
        assert(keys(m.left) =~= keys(n.left).insert(value));
        assert forall|k: usize| keys(m.left).count(k) > 0 implies k <= n.value by {
            if k != value {
                assert(keys(n.left).count(k) > 0);
            }
        }
    } else {
        if n.right.is_some() {
            lemma_grown(*n.right.unwrap(), value);
        }
        assert(keys(m.right) =~= keys(n.right).insert(value));
        assert forall|k: usize| keys(m.right).count(k) > 0 implies n.value <= k by {
            if k != value {
                assert(keys(n.right).count(k) > 0);
            }
        }
    }
    assert(ordered(Some(Box::new(m))));
    assert(keys(Some(Box::new(m))) =~= keys(Some(Box::new(n))).insert(value));
    lemma_splay_of(m, value);
}

/// The subtree at `x` with `left` hung below its leftmost node.
pub open spec fn hung(x: SplayNode, left: SplayNode) -> SplayNode
    decreases x,
{
    SplayNode {
        value: x.value,
        left: Some(
            Box::new(
                match x.left {
                    None => left,
                    Some(more) => hung(*more, left),
                },
            ),
        ),
        right: x.right,
    }
}

/// Hanging an ordered subtree below the leftmost node of another, none of
/// whose keys is less than any of its own, joins their keys in order.
pub proof fn lemma_hung(x: SplayNode, left: SplayNode, bound: usize)
    requires
        ordered(Some(Box::new(x))),
        ordered(Some(Box::new(left))),
        forall|k: usize| #[trigger] keys(Some(Box::new(left))).count(k) > 0 ==> k <= bound,
        forall|k: usize| #[trigger] keys(Some(Box::new(x))).count(k) > 0 ==> bound <= k,
    ensures
        keys(Some(Box::new(hung(x, left)))) =~= keys(Some(Box::new(left))).add(
            keys(Some(Box::new(x))),
        ),
        ordered(Some(Box::new(hung(x, left)))),
    decreases x,
{
    lemma_children(x);
    assert(keys(Some(Box::new(x))).count(x.value) > 0);
    match x.left {
        None => {
            assert(keys(x.left) =~= Multiset::empty());
        },
        Some(more) => {
            assert forall|k: usize| keys(Some(more)).count(k) > 0 implies bound <= k by {
                assert(keys(Some(Box::new(x))).count(k) > 0);
            }
            lemma_hung(*more, left, bound);
        },
    }
    let h = hung(x, left);
    assert forall|k: usize| keys(h.left).count(k) > 0 implies k <= x.value by {
        if keys(Some(Box::new(left))).count(k) > 0 {
        } else {
            assert(keys(x.left).count(k) > 0);
        }
    }
}

/// Two subtrees that `value` separates, joined into one: the least node of
/// `right` is splayed to its root and takes `left` as its left subtree. Where
/// `right` holds `value` itself, nodes with that key may stand to the left of
/// the new root; `left` is then hung below the leftmost of them.
pub open spec fn joined(left: SplayNode, right: SplayNode, value: usize) -> SplayNode {
    hung(splay_of(right, value), left)
}

/// Joining two ordered subtrees that `value` separates joins their keys in
/// order; without the key `value` on the right, the left subtree becomes the
/// left child of the new root.
pub proof fn lemma_joined(left: SplayNode, right: SplayNode, value: usize)
    requires
        ordered(Some(Box::new(left))),
        ordered(Some(Box::new(right))),
        forall|k: usize| #[trigger] keys(Some(Box::new(left))).count(k) > 0 ==> k <= value,
        forall|k: usize| #[trigger] keys(Some(Box::new(right))).count(k) > 0 ==> value <= k,
    ensures
        keys(Some(Box::new(joined(left, right, value)))) =~= keys(Some(Box::new(left))).add(
            keys(Some(Box::new(right))),
        ),
        ordered(Some(Box::new(joined(left, right, value)))),
        keys(Some(Box::new(right))).count(value) == 0 ==> joined(left, right, value).left == Some(
            Box::new(left),
        ),
{
    lemma_splay_of(right, value);
    let x = splay_of(right, value);
    lemma_hung(x, left, value);
    if keys(Some(Box::new(right))).count(value) == 0 {
        lemma_children(x);
        if x.left.is_some() {
            let m = *x.left.unwrap();
            assert(keys(x.left).count(m.value) > 0);
            assert(keys(Some(Box::new(x))).count(m.value) > 0);
            assert(false);
        }
    }
}

/// What is left of the subtree at `n` once the node holding `value` that a
/// splay brings to the root is taken out, and whether there was one: the
/// subtree is splayed for `value`, and if its root then holds `value`, the
/// two subtrees of the root are joined.
pub open spec fn removed(n: SplayNode, value: usize) -> (Link, bool) {
    let top = splay_of(n, value);
    if value != top.value {
        (Some(Box::new(top)), false)
    } else {
        match (top.left, top.right) {
            (None, right) => (right, true),
            (left, None) => (left, true),
            (Some(left), Some(right)) => (Some(Box::new(joined(*left, *right, value))), true),
        }
    }
}

/// Removing a key from an ordered subtree takes out one occurrence of it, if
/// there is one, and keeps the order.
pub proof fn lemma_removed(n: SplayNode, value: usize)
    requires
        ordered(Some(Box::new(n))),
    ensures
        removed(n, value).1 == (keys(Some(Box::new(n))).count(value) > 0),
        keys(removed(n, value).0) =~= keys(Some(Box::new(n))).remove(value),
        ordered(removed(n, value).0),
{
    lemma_splay_of(n, value);
    let top = splay_of(n, value);
    lemma_children(top);
    if value != top.value {
    } else {
        assert(keys(Some(Box::new(top))).count(value) > 0);
        match (top.left, top.right) {
            (None, right) => {
                assert(keys(top.left) =~= Multiset::empty());
            },
            (left, None) => {
                assert(keys(top.right) =~= Multiset::empty());
            },
            (Some(left), Some(right)) => {
                lemma_joined(*left, *right, value);
            },
        }
    }
}

/// What a rotation attempt costs: a read for the child, and two writes if
/// one comes up.
pub open spec fn turn_cost(comes_up: bool) -> Cost {
    if comes_up {
        cost(0, 1, 2)
    } else {
        cost(0, 1, 0)
    }
}

/// What it costs to splay the subtree at `n` for `value`: a comparison at
/// `n`, a read for the child on the side of `value`, and the splay through
/// that child if it is there.
pub open spec fn splay_cost(n: SplayNode, value: usize) -> Cost
    decreases n, 1nat,
{
    cost(1, 0, 0).plus(
        if value < n.value {
            cost(0, 1, 0).plus(
                match n.left {
                    None => cost(0, 0, 0),
                    Some(l) => splayed_left_cost(*l, value),
                },
            )
        } else if value > n.value {
            cost(0, 1, 0).plus(
                match n.right {
                    None => cost(0, 0, 0),
                    Some(r) => splayed_right_cost(*r, value),
                },
            )
        } else {
            cost(0, 0, 0)
        },
    )
}

/// What it costs to splay through the left child `l`: a comparison at `l`;
/// when the search goes on below `l`, a write, the splay below, and the
/// rotations with a read between them; else a read and one rotation.
pub open spec fn splayed_left_cost(l: SplayNode, value: usize) -> Cost
    decreases l, 0nat,
{
    cost(1, 0, 0).plus(
        if value < l.value {
            cost(0, 0, 1).plus(
                match l.left {
                    None => cost(0, 0, 0),
                    Some(b) => splay_cost(*b, value),
                },
            ).plus(turn_cost(true)).plus(
                if l.left.is_some() {
                    cost(0, 1, 0).plus(turn_cost(true))
                } else {
                    cost(0, 0, 0)
                },
            )
        } else if value > l.value {
            cost(0, 0, 1).plus(
                match l.right {
                    None => cost(0, 0, 0),
                    Some(b) => splay_cost(*b, value),
                },
            ).plus(turn_cost(l.right.is_some())).plus(cost(0, 1, 0)).plus(turn_cost(true))
        } else {
            cost(0, 1, 0).plus(turn_cost(true))
        },
    )
}

/// What it costs to splay through the right child `r`: a comparison at `r`;
/// when the search goes on below `r`, a write, the splay below, and the
/// rotations with a read between them; else a read and one rotation.
pub open spec fn splayed_right_cost(r: SplayNode, value: usize) -> Cost
    decreases r, 0nat,
{
    cost(1, 0, 0).plus(
        if value > r.value {
            cost(0, 0, 1).plus(
                match r.right {
                    None => cost(0, 0, 0),
                    Some(b) => splay_cost(*b, value),
                },
            ).plus(turn_cost(true)).plus(
                if r.right.is_some() {
                    cost(0, 1, 0).plus(turn_cost(true))
                } else {
                    cost(0, 0, 0)
                },
            )
        } else if value < r.value {
            cost(0, 0, 1).plus(
                match r.left {
                    None => cost(0, 0, 0),
                    Some(b) => splay_cost(*b, value),
                },
            ).plus(turn_cost(r.left.is_some())).plus(cost(0, 1, 0)).plus(turn_cost(true))
        } else {
            cost(0, 1, 0).plus(turn_cost(true))
        },
    )
}

/// Moves the node nearest to `value` in the subtree at `node` to its root:
/// the node holding `value` that a search meets first, and else the last
/// node that the search passes. The keys and their order stay as they are.
pub fn splay(node: Box<SplayNode>, value: usize, stats: &mut Stats) -> (r: Box<SplayNode>)
    ensures
        *r == splay_of(*node, value),
        final(stats).charged(*old(stats), splay_cost(*node, value)),
    decreases node, 1nat,
{
    let mut node = node;
    let ghost s0 = *stats;
    stats.comp();
    if value < node.value {
        stats.read();
        let ghost s1 = *stats;
        assert(s1.charged(s0, cost(1, 1, 0))) by {
            reveal(Stats::charged);
        }
        match node.left.take() {
            None => node,
            Some(left) => {
                let r = splay_left(node, left, value, stats);
                proof {
                    lemma_charged_twice(
                        s0,
                        s1,
                        *stats,
                        cost(1, 1, 0),
                        splayed_left_cost(*left, value),
                    );
                }
                r
            },
        }
    } else if value > node.value {
        stats.read();
        let ghost s1 = *stats;
        assert(s1.charged(s0, cost(1, 1, 0))) by {
            reveal(Stats::charged);
        }
        match node.right.take() {
            None => node,
            Some(right) => {
                let r = splay_right(node, right, value, stats);
                proof {
                    lemma_charged_twice(
                        s0,
                        s1,
                        *stats,
                        cost(1, 1, 0),
                        splayed_right_cost(*right, value),
                    );
                }
                r
            },
        }
    } else {
        node
    }
}

/// Splays through `left`, the left child taken off `node`: two right
/// rotations when the search goes left twice, a left rotation below and a
/// right rotation above when it turns right at the left child, one right
/// rotation when the left child holds `value`.
pub fn splay_left(
    node: Box<SplayNode>,
    left: Box<SplayNode>,
    value: usize,
    stats: &mut Stats,
) -> (r: Box<SplayNode>)
    ensures
        *r == splayed_left(*node, *left, value),
        final(stats).charged(*old(stats), splayed_left_cost(*left, value)),
    decreases left, 0nat,
{
    let mut node = node;
    let mut left = left;
    let ghost l0 = *left;
    let ghost s0 = *stats;
    stats.comp();
    if value < left.value {
        stats.swap();
        let ghost s1 = *stats;
        let ghost sub = match l0.left {
            None => cost(0, 0, 0),
            Some(b) => splay_cost(*b, value),
        };
        match left.left.take() {
            None => {
                proof {
                    lemma_charged_nothing(s1);
                }
            },
            Some(below) => {
                let below = splay(below, value, stats);
                left.left = Some(below);
            },
        }
        let ghost s2 = *stats;
        node.left = Some(left);
        node = node.rotate_right(stats);
        let ghost s3 = *stats;
        proof {
            assert(s1.charged(s0, cost(1, 0, 1))) by {
                reveal(Stats::charged);
            }
            lemma_charged_twice(s0, s1, s2, cost(1, 0, 1), sub);
            lemma_charged_twice(s0, s2, s3, cost(1, 0, 1).plus(sub), turn_cost(true));
        }
        if node.left.is_some() {
            stats.read();
            let ghost s4 = *stats;
            node = node.rotate_right(stats);
            proof {
                assert(s4.charged(s3, cost(0, 1, 0)));
                lemma_charged_twice(s3, s4, *stats, cost(0, 1, 0), turn_cost(true));
                lemma_charged_twice(
                    s0,
                    s3,
                    *stats,
                    cost(1, 0, 1).plus(sub).plus(turn_cost(true)),
                    cost(0, 1, 0).plus(turn_cost(true)),
                );
            }
        }
        node
    } else if value > left.value {
        stats.swap();
        let ghost s1 = *stats;
        let ghost sub = match l0.right {
            None => cost(0, 0, 0),
            Some(b) => splay_cost(*b, value),
        };
        match left.right.take() {
            None => {
                proof {
                    lemma_charged_nothing(s1);
                }
            },
            Some(below) => {
                let below = splay(below, value, stats);
                left.right = Some(below);
            },
        }
        let ghost s2 = *stats;
        let left = left.rotate_left(stats);
        let ghost s3 = *stats;
        node.left = Some(left);
        stats.read();
        let ghost s4 = *stats;
        let r = node.rotate_right(stats);
        proof {
            assert(s1.charged(s0, cost(1, 0, 1))) by {
                reveal(Stats::charged);
            }
            lemma_charged_twice(s0, s1, s2, cost(1, 0, 1), sub);
            lemma_charged_twice(
                s0,
                s2,
                s3,
                cost(1, 0, 1).plus(sub),
                turn_cost(l0.right.is_some()),
            );
            lemma_charged_twice(
                s0,
                s3,
                s4,
                cost(1, 0, 1).plus(sub).plus(turn_cost(l0.right.is_some())),
                cost(0, 1, 0),
            );
            lemma_charged_twice(
                s0,
                s4,
                *stats,
                cost(1, 0, 1).plus(sub).plus(turn_cost(l0.right.is_some())).plus(cost(0, 1, 0)),
                turn_cost(true),
            );
        }
        r
    } else {
        node.left = Some(left);
        stats.read();
        let ghost s1 = *stats;
        let r = node.rotate_right(stats);
        proof {
            assert(s1.charged(s0, cost(1, 1, 0))) by {
                reveal(Stats::charged);
            }
            lemma_charged_twice(s0, s1, *stats, cost(1, 1, 0), turn_cost(true));
        }
        r
    }
}

/// Splays through `right`, the right child taken off `node`: two left
/// rotations when the search goes right twice, a right rotation below and a
/// left rotation above when it turns left at the right child, one left
/// rotation when the right child holds `value`.
pub fn splay_right(
    node: Box<SplayNode>,
    right: Box<SplayNode>,
    value: usize,
    stats: &mut Stats,
) -> (r: Box<SplayNode>)
    ensures
        *r == splayed_right(*node, *right, value),
        final(stats).charged(*old(stats), splayed_right_cost(*right, value)),
    decreases right, 0nat,
{
    let mut node = node;
    let mut right = right;
    let ghost l0 = *right;
    let ghost s0 = *stats;
    stats.comp();
    if value > right.value {
        stats.swap();
        let ghost s1 = *stats;
        let ghost sub = match l0.right {
            None => cost(0, 0, 0),
            Some(b) => splay_cost(*b, value),
        };
        match right.right.take() {
            None => {
                proof {
                    lemma_charged_nothing(s1);
                }
            },
            Some(below) => {
                let below = splay(below, value, stats);
                right.right = Some(below);
            },
        }
        let ghost s2 = *stats;
        node.right = Some(right);
        node = node.rotate_left(stats);
        let ghost s3 = *stats;
        proof {
            assert(s1.charged(s0, cost(1, 0, 1))) by {
                reveal(Stats::charged);
            }
            lemma_charged_twice(s0, s1, s2, cost(1, 0, 1), sub);
            lemma_charged_twice(s0, s2, s3, cost(1, 0, 1).plus(sub), turn_cost(true));
        }
        if node.right.is_some() {
            stats.read();
            let ghost s4 = *stats;
            node = node.rotate_left(stats);
            proof {
                assert(s4.charged(s3, cost(0, 1, 0)));
                lemma_charged_twice(s3, s4, *stats, cost(0, 1, 0), turn_cost(true));
                lemma_charged_twice(
                    s0,
                    s3,
                    *stats,
                    cost(1, 0, 1).plus(sub).plus(turn_cost(true)),
                    cost(0, 1, 0).plus(turn_cost(true)),
                );
            }
        }
        node
    } else if value < right.value {
        stats.swap();
        let ghost s1 = *stats;
        let ghost sub = match l0.left {
            None => cost(0, 0, 0),
            Some(b) => splay_cost(*b, value),
        };
        match right.left.take() {
            None => {
                proof {
                    lemma_charged_nothing(s1);
                }
            },
            Some(below) => {
                let below = splay(below, value, stats);
                right.left = Some(below);
            },
        }
        let ghost s2 = *stats;
        let right = right.rotate_right(stats);
        let ghost s3 = *stats;
        node.right = Some(right);
        stats.read();
        let ghost s4 = *stats;
        let r = node.rotate_left(stats);
        proof {
            assert(s1.charged(s0, cost(1, 0, 1))) by {
                reveal(Stats::charged);
            }
            lemma_charged_twice(s0, s1, s2, cost(1, 0, 1), sub);
            lemma_charged_twice(
                s0,
                s2,
                s3,
                cost(1, 0, 1).plus(sub),
                turn_cost(l0.left.is_some()),
            );
            lemma_charged_twice(
                s0,
                s3,
                s4,
                cost(1, 0, 1).plus(sub).plus(turn_cost(l0.left.is_some())),
                cost(0, 1, 0),
            );
            lemma_charged_twice(
                s0,
                s4,
                *stats,
                cost(1, 0, 1).plus(sub).plus(turn_cost(l0.left.is_some())).plus(cost(0, 1, 0)),
                turn_cost(true),
            );
        }
        r
    } else {
        node.right = Some(right);
        stats.read();
        let ghost s1 = *stats;
        let r = node.rotate_left(stats);
        proof {
            assert(s1.charged(s0, cost(1, 1, 0))) by {
                reveal(Stats::charged);
            }
            lemma_charged_twice(s0, s1, *stats, cost(1, 1, 0), turn_cost(true));
        }
        r
    }
}

/// What it costs to hang a subtree below the leftmost node of the subtree
/// at `x`: a read and a write at each node down to it.
pub open spec fn hung_cost(x: SplayNode) -> Cost
    decreases x,
{
    cost(0, 1, 1).plus(
        match x.left {
            None => cost(0, 0, 0),
            Some(more) => hung_cost(*more),
        },
    )
}

/// What it costs to join a subtree with `right`: the splay of `right` and
/// the hanging below its new root.
pub open spec fn joined_cost(right: SplayNode, value: usize) -> Cost {
    splay_cost(right, value).plus(hung_cost(splay_of(right, value)))
}

/// What it costs to remove `value` from the subtree at `n`: the splay, a
/// write and a comparison at the new root, and if that holds `value`, two
/// reads for its links and the joining of its subtrees where it has two.
pub open spec fn removed_cost(n: SplayNode, value: usize) -> Cost {
    let top = splay_of(n, value);
    splay_cost(n, value).plus(cost(1, 0, 1)).plus(
        if value != top.value {
            cost(0, 0, 0)
        } else {
            cost(0, 2, 0).plus(
                match (top.left, top.right) {
                    (Some(_), Some(r)) => joined_cost(*r, value),
                    _ => cost(0, 0, 0),
                },
            )
        },
    )
}

/// Hangs `left` below the leftmost node of the subtree at `x`.
pub fn hang(x: Box<SplayNode>, left: Box<SplayNode>, stats: &mut Stats) -> (r: Box<SplayNode>)
    ensures
        *r == hung(*x, *left),
        final(stats).charged(*old(stats), hung_cost(*x)),
    decreases x,
{
    proof {
        reveal(Stats::charged);
    }
    let mut x = x;
    stats.read();
    let below = match x.left.take() {
        None => left,
        Some(more) => hang(more, left, stats),
    };
    stats.swap();
    x.left = Some(below);
    x
}

/// Joins two subtrees that `value` separates into one: the least node of
/// `right` is splayed to its root and takes `left` as its left subtree, below
/// any nodes with the key `value` that stand to the left of the new root.
pub fn join(
    left: Box<SplayNode>,
    right: Box<SplayNode>,
    value: usize,
    stats: &mut Stats,
) -> (x: Box<SplayNode>)
    ensures
        *x == joined(*left, *right, value),
        final(stats).charged(*old(stats), joined_cost(*right, value)),
{
    proof {
        reveal(Stats::charged);
    }
    let x = splay(right, value, stats);
    hang(x, left, stats)
}

/// The line of a node in the picture: the start of the line for its road,
/// its key in decimal, and a line break.
pub open spec fn line(n: SplayNode, road: Seq<char>) -> Seq<char> {
    line_start(road) + decimal(n.value as nat) + "\n"@
}

/// The picture of a subtree whose root is reached by `road`: the tree lies on
/// its side, so the right subtree comes first, then the line of the node,
/// then the left subtree.
pub open spec fn drawn(t: Link, road: Seq<char>) -> Seq<char>
    decreases t,
{
    match t {
        None => Seq::empty(),
        Some(n) => drawn(n.right, road + "u"@) + line(*n, road) + drawn(n.left, road + "d"@),
    }
}

impl Clone for SplayNode {
    /// A copy of the subtree at this node.
    fn clone(&self) -> (res: Self)
        ensures
            res == *self,
        decreases self,
    {
        SplayNode {
            value: self.value,
            left: match &self.left {
                Some(node) => Some(Box::new((&**node).clone())),
                None => None,
            },
            right: match &self.right {
                Some(node) => Some(Box::new((&**node).clone())),
                None => None,
            },
        }
    }
}

impl SplayNode {
    /// A leaf.
    pub fn new(value: usize) -> (n: Self)
        ensures
            n == (SplayNode { value, left: None, right: None }),
    {
        SplayNode { value, left: None, right: None }
    }

    /// Promotes the left child, if there is one, to the place of this node,
    /// which becomes its right child.
    pub fn rotate_right(self: Box<Self>, stats: &mut Stats) -> (r: Box<Self>)
        ensures
            *r == turned_right(*self),
            final(stats).charged(*old(stats), turn_cost(self.left.is_some())),
    {
        proof {
            reveal(Stats::charged);
        }
        let mut node = self;
        stats.read();
        match node.left.take() {
            Some(x) => {
                let mut x = x;
                stats.swap();
                node.left = x.right.take();
                stats.swap();
                x.right = Some(node);
                x
            },
            None => node,
        }
    }

    /// Promotes the right child, if there is one, to the place of this node,
    /// which becomes its left child.
    pub fn rotate_left(self: Box<Self>, stats: &mut Stats) -> (r: Box<Self>)
        ensures
            *r == turned_left(*self),
            final(stats).charged(*old(stats), turn_cost(self.right.is_some())),
    {
        proof {
            reveal(Stats::charged);
        }
        let mut node = self;
        stats.read();
        match node.right.take() {
            Some(x) => {
                let mut x = x;
                stats.swap();
                node.right = x.left.take();
                stats.swap();
                x.left = Some(node);
                x
            },
            None => node,
        }
    }

    /// Adds `value` below this node as a leaf where the descent ends (to the
    /// left of larger keys, to the right of all others) and splays it up from
    /// each node on the way back, so that it ends at the root.
    pub fn insert(self: Box<Self>, value: usize, stats: &mut Stats) -> (r: Box<Self>)
        ensures
            *r == grown(*self, value),
            final(stats).charged(*old(stats), grown_cost(*self, value)),
        decreases self,
    {
        proof {
            reveal(Stats::charged);
        }
        let mut node = self;
        let ghost n0 = *node;
        let ghost s0 = *stats;
        let ghost sub = match (if value < n0.value {
            n0.left
        } else {
            n0.right
        }) {
            None => cost(0, 0, 0),
            Some(c) => grown_cost(*c, value),
        };
        stats.comp();
        stats.read();
        let ghost s1 = *stats;
        if value < node.value {
            let child = match node.left.take() {
                Some(left) => left.insert(value, stats),
                None => Box::new(SplayNode::new(value)),
            };
            node.left = Some(child);
        } else {
            let child = match node.right.take() {
                Some(right) => right.insert(value, stats),
                None => Box::new(SplayNode::new(value)),
            };
            node.right = Some(child);
        }
        let ghost s2 = *stats;
        stats.swap();
        let ghost s3 = *stats;
        proof {
            assert(s1.charged(s0, cost(1, 1, 0)));
            assert(s2.charged(s1, sub));
            lemma_charged_twice(s0, s1, s2, cost(1, 1, 0), sub);
            lemma_charged_twice(s0, s2, s3, cost(1, 1, 0).plus(sub), cost(0, 0, 1));
        }
        let r = splay(node, value, stats);
        proof {
            lemma_charged_twice(
                s0,
                s3,
                *stats,
                cost(1, 1, 0).plus(sub).plus(cost(0, 0, 1)),
                splay_cost(sown(n0, value), value),
            );
        }
        r
    }

    /// Splays `value` to the root and, if the root then holds it, takes the
    /// root out and joins its two subtrees. Returns what is left and whether
    /// a node was taken out.
    pub fn delete(self: Box<Self>, value: usize, stats: &mut Stats) -> (res: (Link, bool))
        ensures
            res == removed(*self, value),
            final(stats).charged(*old(stats), removed_cost(*self, value)),
    {
        let ghost s0 = *stats;
        let ghost paid = splay_cost(*self, value);
        let mut node = splay(self, value, stats);
        let ghost s1 = *stats;
        stats.swap();
        stats.comp();
        let ghost s2 = *stats;
        proof {
            assert(s2.charged(s1, cost(1, 0, 1))) by {
                reveal(Stats::charged);
            }
            lemma_charged_twice(s0, s1, s2, paid, cost(1, 0, 1));
        }
        if value != node.value {
            return (Some(node), false);
        }
        stats.read();
        let left = node.left.take();
        stats.read();
        let right = node.right.take();
        let ghost s3 = *stats;
        proof {
            assert(s3.charged(s2, cost(0, 2, 0))) by {
                reveal(Stats::charged);
            }
            lemma_charged_twice(s0, s2, s3, paid.plus(cost(1, 0, 1)), cost(0, 2, 0));
        }
        match (left, right) {
            (None, right) => (right, true),
            (left, None) => (left, true),
            (Some(left), Some(right)) => {
                let x = join(left, right, value, stats);
                proof {
                    lemma_charged_twice(
                        s0,
                        s3,
                        *stats,
                        paid.plus(cost(1, 0, 1)).plus(cost(0, 2, 0)),
                        joined_cost(*right, value),
                    );
                }
                (Some(x), true)
            },
        }
    }

    /// The height of the subtree at this node: one more than that of its
    /// higher child, an absent child counting as zero.
    pub fn height(&self) -> (h: usize)
        requires
            height(Some(Box::new(*self))) <= usize::MAX,
        ensures
            h == height(Some(Box::new(*self))),
        decreases *self,
    {
        proof {
            reveal_with_fuel(height, 2);
        }
        let left_height: usize = match &self.left {
            Some(left) => left.height(),
            None => 0,
        };
        let right_height: usize = match &self.right {
            Some(right) => right.height(),
            None => 0,
        };
        if left_height >= right_height {
            1 + left_height
        } else {
            1 + right_height
        }
    }

    /// Appends the keys at and below this node to `out`, in traversal order.
    pub fn collect(&self, out: &mut Vec<usize>)
        ensures
            final(out)@ =~= old(out)@ + in_order(Some(Box::new(*self))),
        decreases *self,
    {
        proof {
            reveal_with_fuel(in_order, 2);
        }
        if let Some(left) = &self.left {
            left.collect(out);
        }
        out.push(self.value);
        if let Some(right) = &self.right {
            right.collect(out);
        }
    }

    /// Appends the picture of the subtree at this node, reached by `road`, to
    /// `out`.
    pub fn print_node(&self, out: &mut String, road: String)
        ensures
            final(out)@ == old(out)@ + drawn(Some(Box::new(*self)), road@),
        decreases *self,
    {
        let ghost before = out@;
        let ghost above = drawn(self.right, road@ + "u"@);
        let ghost below = drawn(self.left, road@ + "d"@);
        let ghost here = line(*self, road@);
        proof {
            assert(drawn(Some(Box::new(*self)), road@) == above + here + below);
            assert(before + (above + here + below) =~= before + above + here + below);
        }
        match &self.right {
            Some(right) => {
                let mut up = road.clone();
                up.append("u");
                right.print_node(out, up);
            },
            None => {
                assert(before + above =~= before);
            },
        }
        assert(out@ == before + above);
        let start = start_line(road.as_str());
        let text = key_text(self.value);
        let mut row = start;
        row.append(text.as_str());
        row.append("\n");
        assert(row@ =~= here);
        out.append(row.as_str());
        match &self.left {
            Some(left) => {
                let mut down = road;
                down.append("d");
                left.print_node(out, down);
            },
            None => {
                assert(before + above + here + below =~= before + above + here);
            },
        }
    }
}

} // verus!
