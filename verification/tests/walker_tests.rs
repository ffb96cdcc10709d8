use dace_trace_gen::address::{cache_line, Layout};
use dace_trace_gen::affine::{Affine, Term};
use dace_trace_gen::bench::matrix_product_nest;
use dace_trace_gen::cursor::{collect_points, Walker};
use dace_trace_gen::nest::{insert_at_innermost, nested_loops, squ_ref, LoopDim, LoopNest};
use dace_trace_gen::trace::{trace_histogram, TraceError};
use dace_trace_gen::tracker::Analysis;
use dace_trace_gen::walker::{bounds_in_range, events_at, touch_body, TraceEvent};

fn counted(name: &str, lower: Affine, upper: Affine, step: i64) -> LoopDim {
    LoopDim { name: name.to_string(), lower, upper, step }
}

fn constant(c: i64) -> Affine {
    Affine { constant: c, terms: vec![] }
}

fn index_plus(dim: usize, c: i64) -> Affine {
    Affine { constant: c, terms: vec![Term { dim, coeff: 1 }] }
}

fn triangle(n: i64) -> LoopNest {
    let mut nest = LoopNest::new();
    nest.push_loop(counted("i", constant(0), constant(n), 1)).unwrap();
    nest.push_loop(counted("j", index_plus(0, 1), constant(n), 1)).unwrap();
    nest
}

#[test]
fn rectangular_points_are_row_major() {
    let nest = nested_loops(&["i", "j"], 3);
    let pts = collect_points(&nest).unwrap();
    let expected: Vec<Vec<i64>> = vec![
        vec![0, 0],
        vec![0, 1],
        vec![0, 2],
        vec![1, 0],
        vec![1, 1],
        vec![1, 2],
        vec![2, 0],
        vec![2, 1],
        vec![2, 2],
    ];
    assert_eq!(pts, expected);
}

#[test]
fn triangular_bound_shrinks_the_inner_loop() {
    let n = 6;
    let pts = collect_points(&triangle(n)).unwrap();
    let mut last = n;
    for i in 0..n {
        let inner: Vec<i64> = pts.iter().filter(|p| p[0] == i).map(|p| p[1]).collect();
        let expected: Vec<i64> = (i + 1..n).collect();
        assert_eq!(inner, expected);
        assert!((inner.len() as i64) < last);
        last = inner.len() as i64;
    }
    assert_eq!(pts.len() as i64, n * (n - 1) / 2);
    let mut sorted = pts.clone();
    sorted.sort();
    assert_eq!(pts, sorted);
}

#[test]
fn triangular_trace_counts_one_event_per_point_and_reference() {
    for n in 0..8 {
        let mut nest = triangle(n);
        insert_at_innermost(&squ_ref("a", n as i32, vec!["i", "j"]).unwrap(), &mut nest).unwrap();
        insert_at_innermost(&squ_ref("a", n as i32, vec!["j", "i"]).unwrap(), &mut nest).unwrap();
        let h = trace_histogram(&nest, 8, 64).unwrap();
        assert_eq!(h.total() as i64, 2 * (n * (n - 1) / 2));
        assert_eq!(collect_points(&nest).unwrap().len() as i64, n * (n - 1) / 2);
    }
}

#[test]
fn walker_hands_out_points_one_by_one() {
    let nest = triangle(4);
    let mut walker = Walker::new(&nest);
    let mut seen: Vec<Vec<i64>> = Vec::new();
    while walker.advance(&nest).unwrap() {
        seen.push(walker.point().clone());
    }
    assert_eq!(
        seen,
        vec![vec![0, 1], vec![0, 2], vec![0, 3], vec![1, 2], vec![1, 3], vec![2, 3]]
    );
    assert_eq!(walker.advance(&nest), Ok(false));
    assert_eq!(walker.advance(&nest), Ok(false));
}

#[test]
fn walker_can_be_restarted() {
    let nest = nested_loops(&["i", "j", "k"], 2);
    let mut first = Walker::new(&nest);
    for _ in 0..3 {
        assert_eq!(first.advance(&nest), Ok(true));
    }
    assert_eq!(first.point(), &vec![0, 1, 0]);
    let mut again = Walker::new(&nest);
    assert_eq!(again.advance(&nest), Ok(true));
    assert_eq!(again.point(), &vec![0, 0, 0]);
}

#[test]
fn zero_trip_loops_have_no_points() {
    assert!(collect_points(&nested_loops(&["i", "j"], 0)).unwrap().is_empty());
    assert!(collect_points(&nested_loops(&["i"], -3)).unwrap().is_empty());
    let mut nest = LoopNest::new();
    nest.push_loop(counted("i", constant(0), constant(3), 1)).unwrap();
    nest.push_loop(counted("j", constant(5), constant(5), 1)).unwrap();
    assert!(collect_points(&nest).unwrap().is_empty());
    let mut walker = Walker::new(&nest);
    assert_eq!(walker.advance(&nest), Ok(false));
}

#[test]
fn inner_loops_empty_for_some_outer_indices_are_skipped() {
    // j runs from 2 to i: empty for i = 0, 1, 2
    let mut nest = LoopNest::new();
    nest.push_loop(counted("i", constant(0), constant(5), 1)).unwrap();
    nest.push_loop(counted("j", constant(2), index_plus(0, 0), 1)).unwrap();
    let pts = collect_points(&nest).unwrap();
    assert_eq!(pts, vec![vec![3, 2], vec![4, 2], vec![4, 3]]);
}

#[test]
fn nest_without_loops_has_one_point() {
    let nest = LoopNest::new();
    let pts = collect_points(&nest).unwrap();
    assert_eq!(pts, vec![Vec::<i64>::new()]);
}

#[test]
fn steps_and_directions() {
    let mut nest = LoopNest::new();
    nest.push_loop(counted("i", constant(10), constant(0), -3)).unwrap();
    nest.push_loop(counted("j", constant(1), constant(6), 2)).unwrap();
    let pts = collect_points(&nest).unwrap();
    let mut expected: Vec<Vec<i64>> = Vec::new();
    for i in [10, 7, 4, 1] {
        for j in [1, 3, 5] {
            expected.push(vec![i, j]);
        }
    }
    assert_eq!(pts, expected);
}

#[test]
fn loop_ending_at_the_edge_of_the_range() {
    let mut nest = LoopNest::new();
    nest.push_loop(counted("i", constant(i64::MIN + 2), constant(i64::MIN), -2)).unwrap();
    assert_eq!(collect_points(&nest).unwrap(), vec![vec![i64::MIN + 2]]);
    let mut nest = LoopNest::new();
    nest.push_loop(counted("i", constant(i64::MAX - 1), constant(i64::MAX), 5)).unwrap();
    assert_eq!(collect_points(&nest).unwrap(), vec![vec![i64::MAX - 1]]);
}

#[test]
fn bound_out_of_range_stops_the_walk() {
    let mut nest = LoopNest::new();
    nest.push_loop(counted("i", constant(0), constant(3), 1)).unwrap();
    nest.push_loop(counted("j", index_plus(0, i64::MAX - 1), constant(i64::MAX), 1)).unwrap();
    assert_eq!(collect_points(&nest), Err(TraceError::OutOfRange));
    let mut walker = Walker::new(&nest);
    assert_eq!(walker.advance(&nest), Ok(true));
    assert_eq!(walker.point(), &vec![0, i64::MAX - 1]);
    assert_eq!(walker.advance(&nest), Err(TraceError::OutOfRange));
    assert_eq!(trace_histogram(&nest, 8, 64), Err(TraceError::OutOfRange));
}

#[test]
fn structure_lists_loops_and_accesses() {
    let mut nest = nested_loops(&["i", "k"], 32);
    nest.push_loop(counted(
        "j",
        Affine { constant: -1, terms: vec![Term { dim: 0, coeff: 2 }, Term { dim: 1, coeff: -1 }] },
        constant(32),
        4,
    ))
    .unwrap();
    insert_at_innermost(&squ_ref("a", 32, vec!["i", "k"]).unwrap(), &mut nest).unwrap();
    insert_at_innermost(&squ_ref("s", 32, vec![]).unwrap(), &mut nest).unwrap();
    let expected = "\
for i in 0..32 step 1
  for k in 0..32 step 1
    for j in -1 + 2*i + -1*k..32 step 4
      a[0 + 32*i + 1*k]
      s[0]
";
    assert_eq!(nest.structure(0), expected);
    let indented: String = expected.lines().map(|l| format!("    {}\n", l)).collect();
    assert_eq!(nest.structure(2), indented);
}

#[test]
fn structure_writes_numbers_in_decimal() {
    let mut nest = LoopNest::new();
    nest.push_loop(counted("n", constant(i64::MIN), constant(i64::MAX), 1000)).unwrap();
    nest.push_loop(counted("m", constant(10), constant(-907), -25)).unwrap();
    assert_eq!(
        nest.structure(0),
        "for n in -9223372036854775808..9223372036854775807 step 1000\n  for m in 10..-907 step -25\n"
    );
    assert_eq!(LoopNest::new().structure(3), "");
}

#[test]
fn events_can_be_streamed_and_halted_between_points() {
    let nest = matrix_product_nest(3);
    let layout = Layout::place(&nest, 8, 32).unwrap();
    let mut analysis = Analysis::new();
    let mut walker = Walker::new(&nest);
    let mut points = 0;
    while walker.advance(&nest).unwrap() {
        assert!(touch_body(&nest, &layout, walker.point(), &mut analysis));
        points += 1;
        if points == 5 {
            assert_eq!(analysis.len(), 15);
            assert_eq!(analysis.histogram().total(), 15);
        }
    }
    assert_eq!(points, 27);
    assert_eq!(analysis.finish(), trace_histogram(&nest, 8, 32).unwrap());
}

#[test]
fn addresses_follow_the_layout() {
    let mut nest = nested_loops(&["i", "j"], 3);
    insert_at_innermost(&squ_ref("a", 3, vec!["i", "j"]).unwrap(), &mut nest).unwrap();
    insert_at_innermost(&squ_ref("b", 3, vec!["j", "i"]).unwrap(), &mut nest).unwrap();
    // a: 9 elements of 4 bytes, padded to 64; b begins at 64
    let layout = Layout::place(&nest, 4, 64).unwrap();
    assert_eq!(layout.byte_address(&nest, nest.access(0), &vec![2, 1]), Some(4 * 7));
    assert_eq!(layout.byte_address(&nest, nest.access(1), &vec![2, 1]), Some(64 + 4 * 5));
    assert_eq!(layout.byte_address(&nest, nest.access(1), &vec![3, 0]), Some(64 + 4 * 3));
    assert_eq!(layout.byte_address(&nest, nest.access(0), &vec![3, 0]), None);
    assert_eq!(layout.byte_address(&nest, nest.access(0), &vec![0, -1]), None);
    assert_eq!(layout.line(64 + 20), 1);
    assert_eq!(cache_line(0, 64), 0);
    assert_eq!(cache_line(63, 64), 0);
    assert_eq!(cache_line(64, 64), 1);
    assert_eq!(cache_line(1000, 48), 20);
    assert_eq!(cache_line(u64::MAX, 1), u64::MAX);
}

#[test]
fn bounds_are_checked_without_touching_anything() {
    assert!(bounds_in_range(&nested_loops(&["i", "j"], 4)));
    let mut nest = LoopNest::new();
    nest.push_loop(counted("i", constant(0), constant(3), 1)).unwrap();
    nest.push_loop(counted("j", index_plus(0, i64::MAX - 1), constant(i64::MAX), 1)).unwrap();
    assert!(!bounds_in_range(&nest));
    // an access outside its array does not count against the bounds
    let mut nest = nested_loops(&["i"], 4);
    insert_at_innermost(&squ_ref("a", 2, vec!["i"]).unwrap(), &mut nest).unwrap();
    assert!(bounds_in_range(&nest));
    assert_eq!(trace_histogram(&nest, 8, 64), Err(TraceError::OutOfRange));
}

#[test]
fn events_carry_point_reference_and_address() {
    let mut nest = nested_loops(&["i", "j"], 3);
    insert_at_innermost(&squ_ref("a", 3, vec!["i", "j"]).unwrap(), &mut nest).unwrap();
    insert_at_innermost(&squ_ref("b", 3, vec!["j", "i"]).unwrap(), &mut nest).unwrap();
    let layout = Layout::place(&nest, 4, 64).unwrap();
    assert_eq!(
        events_at(&nest, &layout, &vec![2, 1]),
        Some(vec![
            TraceEvent { point: vec![2, 1], access: 0, address: 28 },
            TraceEvent { point: vec![2, 1], access: 1, address: 84 },
        ])
    );
    assert_eq!(events_at(&nest, &layout, &vec![2, 3]), None);
    let mut count = 0;
    for point in collect_points(&nest).unwrap() {
        count += events_at(&nest, &layout, &point).unwrap().len();
    }
    assert_eq!(count as u64, trace_histogram(&nest, 4, 64).unwrap().total());
}
