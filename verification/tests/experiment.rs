use aisd_tree::experiment::{Data, Stats};

#[test]
fn new_stats_are_zero() {
    let s = Stats::new();
    assert_eq!((s.comps, s.ptr_read, s.ptr_swap, s.height), (0, 0, 0, 0));
}

#[test]
fn each_counter_counts_its_own_event() {
    let mut s = Stats::new();
    s.comp();
    s.comp();
    s.read();
    s.swap();
    s.swap();
    s.swap();
    s.height(9);
    assert_eq!((s.comps, s.ptr_read, s.ptr_swap, s.height), (2, 1, 3, 9));
    s.height(4);
    assert_eq!(s.height, 4);
}

#[test]
fn counters_stop_at_the_largest_value() {
    let mut s = Stats { comps: usize::MAX, ptr_read: usize::MAX - 1, ptr_swap: usize::MAX, height: 0 };
    s.comp();
    s.read();
    s.read();
    s.swap();
    assert_eq!(s.comps, usize::MAX);
    assert_eq!(s.ptr_read, usize::MAX);
    assert_eq!(s.ptr_swap, usize::MAX);
}

#[test]
fn data_sums_and_keeps_the_peaks() {
    let mut d = Data::new();
    assert_eq!(d.count, 0);
    d.add_stat(Stats { comps: 3, ptr_read: 10, ptr_swap: 1, height: 4 });
    d.add_stat(Stats { comps: 5, ptr_read: 2, ptr_swap: 1, height: 6 });
    d.add_stat(Stats { comps: 1, ptr_read: 7, ptr_swap: 0, height: 5 });
    assert_eq!(d.count, 3);
    assert_eq!((d.sum.comps, d.sum.ptr_read, d.sum.ptr_swap, d.sum.height), (9, 19, 2, 15));
    let max = d.max();
    assert_eq!((max.comps, max.ptr_read, max.ptr_swap, max.height), (5, 10, 1, 6));
}

#[test]
fn data_sums_stop_at_the_largest_value() {
    let mut d = Data::new();
    d.add_stat(Stats { comps: usize::MAX - 1, ptr_read: 1, ptr_swap: 0, height: 0 });
    d.add_stat(Stats { comps: 5, ptr_read: 1, ptr_swap: 0, height: 0 });
    assert_eq!(d.sum.comps, usize::MAX);
    assert_eq!(d.sum.ptr_read, 2);
    assert_eq!(d.max.comps, usize::MAX - 1);
}

#[test]
fn merging_two_aggregates_adds_sums_and_takes_peaks() {
    let mut a = Data::new();
    a.add_stat(Stats { comps: 3, ptr_read: 10, ptr_swap: 1, height: 4 });
    a.add_stat(Stats { comps: 5, ptr_read: 2, ptr_swap: 1, height: 6 });
    let mut b = Data::new();
    b.add_stat(Stats { comps: 7, ptr_read: 1, ptr_swap: 9, height: 2 });
    let m = a + b;
    assert_eq!(m.count, 3);
    assert_eq!((m.sum.comps, m.sum.ptr_read, m.sum.ptr_swap, m.sum.height), (15, 13, 11, 12));
    assert_eq!((m.max.comps, m.max.ptr_read, m.max.ptr_swap, m.max.height), (7, 10, 9, 6));
    let e = Data::new() + Data::new();
    assert_eq!(e.count, 0);
}
