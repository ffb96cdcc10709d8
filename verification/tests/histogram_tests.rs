use dace_trace_gen::histogram::{Distance, Histogram};

#[test]
fn empty_histogram_counts_nothing() {
    let h = Histogram::new();
    assert_eq!(h.cold(), 0);
    assert_eq!(h.total(), 0);
    assert_eq!(h.span(), 0);
    assert_eq!(h.count(Distance::Cold), 0);
    assert_eq!(h.count(Distance::Finite(0)), 0);
    assert_eq!(h.count(Distance::Finite(17)), 0);
    assert_eq!(h.hits_below(0), 0);
    assert_eq!(h.hits_below(100), 0);
}

#[test]
fn record_adds_one_to_its_bucket_only() {
    let mut h = Histogram::new();
    h.record(Distance::Cold);
    h.record(Distance::Finite(3));
    h.record(Distance::Finite(3));
    h.record(Distance::Finite(0));
    assert_eq!(h.count(Distance::Cold), 1);
    assert_eq!(h.count(Distance::Finite(0)), 1);
    assert_eq!(h.count(Distance::Finite(1)), 0);
    assert_eq!(h.count(Distance::Finite(2)), 0);
    assert_eq!(h.count(Distance::Finite(3)), 2);
    assert_eq!(h.count(Distance::Finite(4)), 0);
    assert_eq!(h.total(), 4);
    assert_eq!(h.span(), 4);
}

#[test]
fn hits_below_sums_the_buckets_under_the_capacity() {
    let mut h = Histogram::new();
    h.record(Distance::Cold);
    h.record(Distance::Finite(0));
    h.record(Distance::Finite(2));
    h.record(Distance::Finite(2));
    h.record(Distance::Finite(5));
    assert_eq!(h.hits_below(0), 0);
    assert_eq!(h.hits_below(1), 1);
    assert_eq!(h.hits_below(2), 1);
    assert_eq!(h.hits_below(3), 3);
    assert_eq!(h.hits_below(5), 3);
    assert_eq!(h.hits_below(6), 4);
    assert_eq!(h.hits_below(usize::MAX), 4);
}

#[test]
fn hits_never_shrink_with_capacity() {
    let mut h = Histogram::new();
    for d in [4usize, 1, 1, 7, 0, 3, 3, 3, 9] {
        h.record(Distance::Finite(d));
    }
    h.record(Distance::Cold);
    let mut last = 0;
    for capacity in 0..12 {
        let hits = h.hits_below(capacity);
        assert!(hits >= last);
        last = hits;
    }
    assert_eq!(last + h.cold(), h.total());
}

#[test]
fn merge_sums_bucket_by_bucket() {
    let mut a = Histogram::new();
    a.record(Distance::Cold);
    a.record(Distance::Finite(1));
    let mut b = Histogram::new();
    b.record(Distance::Cold);
    b.record(Distance::Cold);
    b.record(Distance::Finite(1));
    b.record(Distance::Finite(4));
    a.merge(&b);
    assert_eq!(a.cold(), 3);
    assert_eq!(a.count(Distance::Finite(0)), 0);
    assert_eq!(a.count(Distance::Finite(1)), 2);
    assert_eq!(a.count(Distance::Finite(4)), 1);
    assert_eq!(a.total(), 6);
    assert_eq!(a.span(), 5);
}

#[test]
fn merge_is_commutative_and_associative() {
    let mut a = Histogram::new();
    a.record(Distance::Finite(2));
    a.record(Distance::Cold);
    let mut b = Histogram::new();
    b.record(Distance::Finite(0));
    b.record(Distance::Finite(5));
    let mut c = Histogram::new();
    c.record(Distance::Cold);
    c.record(Distance::Finite(2));

    let mut ab = a.clone();
    ab.merge(&b);
    let mut ba = b.clone();
    ba.merge(&a);
    assert_eq!(ab, ba);

    let mut left = ab.clone();
    left.merge(&c);
    let mut bc = b.clone();
    bc.merge(&c);
    let mut right = a.clone();
    right.merge(&bc);
    assert_eq!(left, right);
}

#[test]
fn merge_with_empty_changes_nothing() {
    let mut a = Histogram::new();
    a.record(Distance::Finite(2));
    a.record(Distance::Cold);
    let before = a.clone();
    a.merge(&Histogram::new());
    assert_eq!(a, before);
    let mut e = Histogram::new();
    e.merge(&before);
    assert_eq!(e, before);
}

#[test]
fn equal_counts_are_equal_histograms() {
    let mut a = Histogram::new();
    a.record(Distance::Finite(2));
    a.record(Distance::Cold);
    a.record(Distance::Finite(0));
    let mut b = Histogram::new();
    b.record(Distance::Finite(0));
    b.record(Distance::Cold);
    b.record(Distance::Finite(2));
    assert_eq!(a, b);
}
