//! Cost counters for single tree operations and their aggregation.

use vstd::prelude::*;

verus! {

/// The counter value after one more event: counters stop at `usize::MAX`.
pub open spec fn bump(n: usize) -> usize {
    if n < usize::MAX {
        (n + 1) as usize
    } else {
        n
    }
}

/// The counter value after `k` more events.
pub open spec fn bumped(n: usize, k: nat) -> usize {
    if n + k <= usize::MAX {
        (n + k) as usize
    } else {
        usize::MAX
    }
}

/// The saturating sum of two counters.
pub open spec fn sat_sum(a: usize, b: usize) -> usize {
    if a + b <= usize::MAX {
        (a + b) as usize
    } else {
        usize::MAX
    }
}

/// The larger of two counters.
pub open spec fn larger(a: usize, b: usize) -> usize {
    if a >= b {
        a
    } else {
        b
    }
}

/// A number of events of each kind: key comparisons, reads of a child link
/// (or of the color behind it) and writes of a child link.
pub struct Cost {
    pub comps: nat,
    pub reads: nat,
    pub swaps: nat,
}

impl Cost {
    /// The events of `self` and of `other` together.
    pub open spec fn plus(self, other: Cost) -> Cost {
        Cost {
            comps: self.comps + other.comps,
            reads: self.reads + other.reads,
            swaps: self.swaps + other.swaps,
        }
    }
}

/// `comps` comparisons, `reads` reads and `swaps` writes.
pub open spec fn cost(comps: nat, reads: nat, swaps: nat) -> Cost {
    Cost { comps, reads, swaps }
}

/// What one operation on a tree cost: key comparisons, child links read,
/// child links written, and the tree height the caller recorded afterwards.
pub struct Stats {
    pub comps: usize,
    pub ptr_read: usize,
    pub ptr_swap: usize,
    pub height: usize,
}

impl Stats {
    /// True when no counter of `self` is below the same counter of `before`
    /// and the recorded height is the same.
    pub open spec fn extends(self, before: Stats) -> bool {
        &&& before.comps <= self.comps
        &&& before.ptr_read <= self.ptr_read
        &&& before.ptr_swap <= self.ptr_swap
        &&& before.height == self.height
    }

    /// Counter by counter, the saturating sum of two records.
    pub open spec fn plus(self, other: Stats) -> Stats {
        Stats {
            comps: sat_sum(self.comps, other.comps),
            ptr_read: sat_sum(self.ptr_read, other.ptr_read),
            ptr_swap: sat_sum(self.ptr_swap, other.ptr_swap),
            height: sat_sum(self.height, other.height),
        }
    }

    /// Counter by counter, the larger value of two records.
    pub open spec fn peak(self, other: Stats) -> Stats {
        Stats {
            comps: larger(self.comps, other.comps),
            ptr_read: larger(self.ptr_read, other.ptr_read),
            ptr_swap: larger(self.ptr_swap, other.ptr_swap),
            height: larger(self.height, other.height),
        }
    }

    /// Exactly the events of `cost` were counted since `before`, and the
    /// recorded height is the same.
    #[verifier::opaque]
    pub open spec fn charged(self, before: Stats, cost: Cost) -> bool {
        &&& self.comps == bumped(before.comps, cost.comps)
        &&& self.ptr_read == bumped(before.ptr_read, cost.reads)
        &&& self.ptr_swap == bumped(before.ptr_swap, cost.swaps)
        &&& self.height == before.height
    }

    pub fn new() -> (s: Self)
        ensures
            s.comps == 0,
            s.ptr_read == 0,
            s.ptr_swap == 0,
            s.height == 0,
    {
        Stats { comps: 0, ptr_read: 0, ptr_swap: 0, height: 0 }
    }

    /// Counts one key comparison.
    pub fn comp(&mut self)
        ensures
            final(self).comps == bump(old(self).comps),
            final(self).ptr_read == old(self).ptr_read,
            final(self).ptr_swap == old(self).ptr_swap,
            final(self).height == old(self).height,
            final(self).charged(*old(self), cost(1, 0, 0)),
    {
        proof {
            reveal(Stats::charged);
        }
        self.comps = self.comps.saturating_add(1);
    }

    /// Counts one read of a child link.
    pub fn read(&mut self)
        ensures
            final(self).comps == old(self).comps,
            final(self).ptr_read == bump(old(self).ptr_read),
            final(self).ptr_swap == old(self).ptr_swap,
            final(self).height == old(self).height,
            final(self).charged(*old(self), cost(0, 1, 0)),
    {
        proof {
            reveal(Stats::charged);
        }
        self.ptr_read = self.ptr_read.saturating_add(1);
    }

    /// Counts one write of a child link.
    pub fn swap(&mut self)
        ensures
            final(self).comps == old(self).comps,
            final(self).ptr_read == old(self).ptr_read,
            final(self).ptr_swap == bump(old(self).ptr_swap),
            final(self).height == old(self).height,
            final(self).charged(*old(self), cost(0, 0, 1)),
    {
        proof {
            reveal(Stats::charged);
        }
        self.ptr_swap = self.ptr_swap.saturating_add(1);
    }

    /// Records the height the caller measured after the operation.
    pub fn height(&mut self, height: usize)
        ensures
            final(self).comps == old(self).comps,
            final(self).ptr_read == old(self).ptr_read,
            final(self).ptr_swap == old(self).ptr_swap,
            final(self).height == height,
    {
        self.height = height;
    }
}

/// The sum and the maximum of the records of many operations, counter by
/// counter, and how many records went in. Sums and the count stop at
/// `usize::MAX`.
pub struct Data {
    pub count: usize,
    pub sum: Stats,
    pub max: Stats,
}

/// The larger of two counters.
fn larger_of(a: usize, b: usize) -> (m: usize)
    ensures
        m == larger(a, b),
{
    if a >= b {
        a
    } else {
        b
    }
}

impl Data {
    pub fn new() -> (d: Self)
        ensures
            d.count == 0,
            d.sum == (Stats { comps: 0, ptr_read: 0, ptr_swap: 0, height: 0 }),
            d.max == (Stats { comps: 0, ptr_read: 0, ptr_swap: 0, height: 0 }),
    {
        Data { count: 0, sum: Stats::new(), max: Stats::new() }
    }

    /// Takes in the record of one more operation.
    pub fn add_stat(&mut self, stats: Stats)
        ensures
            final(self).count == bump(old(self).count),
            final(self).sum == old(self).sum.plus(stats),
            final(self).max == old(self).max.peak(stats),
    {
        self.count = self.count.saturating_add(1);
        self.sum.comps = self.sum.comps.saturating_add(stats.comps);
        self.sum.ptr_read = self.sum.ptr_read.saturating_add(stats.ptr_read);
        self.sum.ptr_swap = self.sum.ptr_swap.saturating_add(stats.ptr_swap);
        self.sum.height = self.sum.height.saturating_add(stats.height);
        if stats.comps > self.max.comps {
            self.max.comps = stats.comps;
        }
        if stats.ptr_read > self.max.ptr_read {
            self.max.ptr_read = stats.ptr_read;
        }
        if stats.ptr_swap > self.max.ptr_swap {
            self.max.ptr_swap = stats.ptr_swap;
        }
        if stats.height > self.max.height {
            self.max.height = stats.height;
        }
    }

    /// The largest value that each counter reached in one operation.
    pub fn max(&self) -> (m: &Stats)
        ensures
            *m == self.max,
    {
        &self.max
    }

    /// The aggregate of all records that went into either of two aggregates.
    pub open spec fn merged(self, other: Data) -> Data {
        Data {
            count: sat_sum(self.count, other.count),
            sum: self.sum.plus(other.sum),
            max: self.max.peak(other.max),
        }
    }
}

impl core::ops::Add for Data {
    type Output = Data;

    /// Merges two aggregates into the aggregate of all their records.
    fn add(self, other: Data) -> (merged: Data) {
        let mut merged = self;
        merged.count = merged.count.saturating_add(other.count);
        merged.sum.comps = merged.sum.comps.saturating_add(other.sum.comps);
        merged.sum.ptr_read = merged.sum.ptr_read.saturating_add(other.sum.ptr_read);
        merged.sum.ptr_swap = merged.sum.ptr_swap.saturating_add(other.sum.ptr_swap);
        merged.sum.height = merged.sum.height.saturating_add(other.sum.height);
        merged.max.comps = larger_of(merged.max.comps, other.max.comps);
        merged.max.ptr_read = larger_of(merged.max.ptr_read, other.max.ptr_read);
        merged.max.ptr_swap = larger_of(merged.max.ptr_swap, other.max.ptr_swap);
        merged.max.height = larger_of(merged.max.height, other.max.height);
        merged
    }
}

impl vstd::std_specs::ops::AddSpecImpl for Data {
    open spec fn obeys_add_spec() -> bool {
        true
    }

    open spec fn add_req(self, other: Data) -> bool {
        true
    }

    open spec fn add_spec(self, other: Data) -> Data {
        self.merged(other)
    }
}

/// What is charged after a charge is the sum of both.
pub proof fn lemma_charged_twice(first: Stats, then: Stats, last: Stats, a: Cost, b: Cost)
    requires
        then.charged(first, a),
        last.charged(then, b),
    ensures
        last.charged(first, a.plus(b)),
{
    reveal(Stats::charged);
}

/// Nothing is charged where nothing happened.
pub proof fn lemma_charged_nothing(s: Stats)
    ensures
        s.charged(s, cost(0, 0, 0)),
{
    reveal(Stats::charged);
}

/// Charging only raises the counters and leaves the recorded height alone.
pub proof fn lemma_charged_extends(before: Stats, after: Stats, c: Cost)
    requires
        after.charged(before, c),
    ensures
        after.extends(before),
{
    reveal(Stats::charged);
}

} // verus!
