use dace_trace_gen::fenwick::Fenwick;
use dace_trace_gen::histogram::Distance;
use dace_trace_gen::tracker::{histogram_of_lines, Analysis, Tracker};

fn naive_distance(lines: &[u64], i: usize) -> Distance {
    let mut p = i;
    while p > 0 {
        p -= 1;
        if lines[p] == lines[i] {
            let mut seen: Vec<u64> = Vec::new();
            for &l in &lines[p + 1..i] {
                if !seen.contains(&l) {
                    seen.push(l);
                }
            }
            return Distance::Finite(seen.len());
        }
    }
    Distance::Cold
}

#[test]
fn fenwick_prefix_sums() {
    let mut f = Fenwick::new();
    assert_eq!(f.len(), 0);
    assert_eq!(f.prefix(0), 0);
    let values = [3u64, 0, 5, 1, 1, 0, 7, 2, 4];
    for v in values {
        f.push(v);
    }
    assert_eq!(f.len(), 9);
    let mut sum = 0;
    for end in 0..=values.len() {
        assert_eq!(f.prefix(end), sum);
        if end < values.len() {
            sum += values[end];
        }
    }
}

#[test]
fn fenwick_decrease_changes_one_position() {
    let mut f = Fenwick::new();
    for v in [3u64, 0, 5, 1, 1, 0, 7, 2, 4] {
        f.push(v);
    }
    f.decrease(2, 5);
    f.decrease(6, 1);
    f.decrease(0, 3);
    f.push(9);
    let expected = [0u64, 0, 0, 1, 1, 0, 6, 2, 4, 9];
    let mut sum = 0;
    for end in 0..=expected.len() {
        assert_eq!(f.prefix(end), sum);
        if end < expected.len() {
            sum += expected[end];
        }
    }
}

#[test]
fn tracker_reports_cold_then_distances() {
    let mut t = Tracker::new();
    assert_eq!(t.observe(10), Distance::Cold);
    assert_eq!(t.observe(10), Distance::Finite(0));
    assert_eq!(t.observe(20), Distance::Cold);
    assert_eq!(t.observe(30), Distance::Cold);
    assert_eq!(t.observe(20), Distance::Finite(1));
    assert_eq!(t.observe(10), Distance::Finite(2));
    assert_eq!(t.observe(30), Distance::Finite(2));
    assert_eq!(t.len(), 7);
    assert_eq!(t.lines(), 3);
}

#[test]
fn tracker_counts_distinct_lines_not_accesses() {
    let mut t = Tracker::new();
    for line in [1u64, 2, 2, 2, 3, 2, 3, 3] {
        t.observe(line);
    }
    assert_eq!(t.observe(1), Distance::Finite(2));
}

#[test]
fn tracker_agrees_with_rescanning_the_history() {
    let mut lines: Vec<u64> = Vec::new();
    let mut x: u64 = 12345;
    for _ in 0..400 {
        x = x.wrapping_mul(6364136223846793005).wrapping_add(1442695040888963407);
        lines.push((x >> 33) % 23);
    }
    let mut t = Tracker::new();
    for i in 0..lines.len() {
        assert_eq!(t.observe(lines[i]), naive_distance(&lines, i));
    }
}

#[test]
fn single_line_touched_three_times() {
    let h = histogram_of_lines(&vec![0, 0, 0]);
    assert_eq!(h.cold(), 1);
    assert_eq!(h.count(Distance::Finite(0)), 2);
    assert_eq!(h.total(), 3);
    assert_eq!(h.span(), 1);
}

#[test]
fn two_lines_alternating() {
    let h = histogram_of_lines(&vec![7, 9, 7, 9]);
    assert_eq!(h.cold(), 2);
    assert_eq!(h.count(Distance::Finite(0)), 0);
    assert_eq!(h.count(Distance::Finite(1)), 2);
    assert_eq!(h.total(), 4);
    assert_eq!(h.span(), 2);
}

#[test]
fn empty_trace_has_empty_histogram() {
    let h = histogram_of_lines(&Vec::new());
    assert_eq!(h.total(), 0);
    assert_eq!(h.cold(), 0);
    assert_eq!(h.span(), 0);
}

#[test]
fn cold_count_is_number_of_distinct_lines() {
    let lines: Vec<u64> = vec![5, 1, 5, 2, 2, 8, 1, 5, 13, 8, 8, 1];
    let h = histogram_of_lines(&lines);
    assert_eq!(h.cold(), 5);
    assert_eq!(h.total(), lines.len() as u64);
}

#[test]
fn same_trace_gives_same_histogram() {
    let lines: Vec<u64> = vec![5, 1, 5, 2, 2, 8, 1, 5, 13, 8, 8, 1];
    assert_eq!(histogram_of_lines(&lines), histogram_of_lines(&lines));
}

#[test]
fn analysis_counts_what_it_reports() {
    let mut a = Analysis::new();
    assert_eq!(a.touch(4), Distance::Cold);
    assert_eq!(a.touch(6), Distance::Cold);
    assert_eq!(a.touch(4), Distance::Finite(1));
    assert_eq!(a.len(), 3);
    assert_eq!(a.histogram().cold(), 2);
    assert_eq!(a.histogram().count(Distance::Finite(1)), 1);
    let h = a.finish();
    assert_eq!(h.total(), 3);
}
