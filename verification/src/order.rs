//! Non-decreasing sequences of keys.

use vstd::prelude::*;
use vstd::multiset::Multiset;
use vstd::seq_lib::{lemma_multiset_commutative, to_multiset_build};

verus! {

/// No element of `s` is followed by a smaller one.
pub open spec fn sorted(s: Seq<usize>) -> bool {
    forall|i: int, j: int| 0 <= i <= j < s.len() ==> s[i] <= s[j]
}

/// Joining two sorted runs around a key that bounds the first from above and
/// the second from below gives a sorted run.
pub proof fn lemma_sorted_join(a: Seq<usize>, v: usize, b: Seq<usize>)
    requires
        sorted(a),
        sorted(b),
        forall|i: int| 0 <= i < a.len() ==> a[i] <= v,
        forall|i: int| 0 <= i < b.len() ==> v <= b[i],
    ensures
        sorted(a.push(v) + b),
{
    let s = a.push(v) + b;
    assert forall|i: int, j: int| 0 <= i <= j < s.len() implies s[i] <= s[j] by {
        if j < a.len() {
            assert(s[i] == a[i] && s[j] == a[j]);
        } else if i > a.len() {
            assert(s[i] == b[i - a.len() - 1] && s[j] == b[j - a.len() - 1]);
        } else if i == a.len() {
            if j > a.len() {
                assert(s[j] == b[j - a.len() - 1]);
            }
        } else {
            assert(s[i] == a[i]);
            if j > a.len() {
                assert(s[j] == b[j - a.len() - 1]);
            }
        }
    }
}

/// The keys of two runs joined around a key are those of the runs and the key.
pub proof fn lemma_join_multiset(a: Seq<usize>, v: usize, b: Seq<usize>)
    ensures
        (a.push(v) + b).to_multiset() =~= a.to_multiset().add(b.to_multiset()).insert(v),
{
    lemma_multiset_commutative(a.push(v), b);
    to_multiset_build(a, v);
}

/// A sorted run is fixed by the keys it holds: two sorted runs over the same
/// keys, each as often, are the same run.
pub proof fn lemma_sorted_unique(a: Seq<usize>, b: Seq<usize>)
    requires
        sorted(a),
        sorted(b),
        a.to_multiset() =~= b.to_multiset(),
    ensures
        a =~= b,
{
    let leq = |x: usize, y: usize| x <= y;
    assert(vstd::relations::sorted_by(a, leq));
    assert(vstd::relations::sorted_by(b, leq));
    assert(vstd::relations::total_ordering(leq));
    vstd::seq_lib::lemma_sorted_unique(a, b, leq);
}

/// The keys held after each key of `added` went in, one after the other.
pub open spec fn with_all(held: Multiset<usize>, added: Seq<usize>) -> Multiset<usize>
    decreases added.len(),
{
    if added.len() == 0 {
        held
    } else {
        with_all(held, added.drop_last()).insert(added.last())
    }
}

/// The keys held after one occurrence of each key of `removed` was taken out
/// where there was one, one after the other.
pub open spec fn without_all(held: Multiset<usize>, removed: Seq<usize>) -> Multiset<usize>
    decreases removed.len(),
{
    if removed.len() == 0 {
        held
    } else {
        without_all(held, removed.drop_last()).remove(removed.last())
    }
}

/// Putting keys in one after the other adds them all.
pub proof fn lemma_with_all(held: Multiset<usize>, added: Seq<usize>)
    ensures
        with_all(held, added) =~= held.add(added.to_multiset()),
    decreases added.len(),
{
    if added.len() == 0 {
        assert(added.to_multiset().len() == 0) by {
            vstd::seq_lib::to_multiset_len(added);
        }
    } else {
        lemma_with_all(held, added.drop_last());
        to_multiset_build(added.drop_last(), added.last());
        assert(added.drop_last().push(added.last()) =~= added);
    }
}

/// Taking keys out one after the other takes them all out, as far as they
/// are held.
pub proof fn lemma_without_all(held: Multiset<usize>, removed: Seq<usize>)
    ensures
        without_all(held, removed) =~= held.sub(removed.to_multiset()),
    decreases removed.len(),
{
    if removed.len() == 0 {
        assert(removed.to_multiset().len() == 0) by {
            vstd::seq_lib::to_multiset_len(removed);
        }
    } else {
        lemma_without_all(held, removed.drop_last());
        to_multiset_build(removed.drop_last(), removed.last());
        assert(removed.drop_last().push(removed.last()) =~= removed);
    }
}

/// Size conservation: a container that takes in the keys of `added` and then
/// gives up the same keys, in whatever order, holds what it held before; one
/// that was empty is empty again.
pub proof fn lemma_size_conservation(held: Multiset<usize>, added: Seq<usize>, removed: Seq<usize>)
    requires
        added.to_multiset() =~= removed.to_multiset(),
    ensures
        without_all(with_all(held, added), removed) =~= held,
        without_all(with_all(held, added), removed).len() == held.len(),
{
    lemma_with_all(held, added);
    lemma_without_all(with_all(held, added), removed);
}

} // verus!
