use dace_trace_gen::affine::{Affine, Term};
use dace_trace_gen::bench::{
    check_params, lookup_benchmark, matrix_product_nest, perform_matrix_operations,
    select_benchmark, trace_polybench, Benchmark, ConfigError, Error,
};
use dace_trace_gen::histogram::Distance;
use dace_trace_gen::nest::{
    insert_at_innermost, nested_loops, squ_ref, DomainError, LoopDim, LoopNest, NamedTerm,
    Reference,
};
use dace_trace_gen::trace::{trace_histogram, TraceError};

fn reference(array: &str, extent: u64, constant: i64, terms: &[(&str, i64)]) -> Reference {
    Reference {
        array: array.to_string(),
        extent,
        constant,
        terms: terms
            .iter()
            .map(|(var, coeff)| NamedTerm { var: var.to_string(), coeff: *coeff })
            .collect(),
    }
}

#[test]
fn single_self_reuse() {
    let mut nest = nested_loops(&["i"], 3);
    insert_at_innermost(&reference("x", 1, 0, &[]), &mut nest).unwrap();
    let h = trace_histogram(&nest, 4, 64).unwrap();
    assert_eq!(h.cold(), 1);
    assert_eq!(h.count(Distance::Finite(0)), 2);
    assert_eq!(h.total(), 3);
    assert_eq!(h.span(), 1);
}

#[test]
fn two_alternating_lines() {
    let mut nest = nested_loops(&["t", "s"], 2);
    insert_at_innermost(&reference("x", 32, 0, &[("s", 16)]), &mut nest).unwrap();
    let h = trace_histogram(&nest, 4, 64).unwrap();
    assert_eq!(h.cold(), 2);
    assert_eq!(h.count(Distance::Finite(0)), 0);
    assert_eq!(h.count(Distance::Finite(1)), 2);
    assert_eq!(h.total(), 4);
}

#[test]
fn two_references_alternate_between_two_lines() {
    let mut nest = nested_loops(&["t"], 2);
    insert_at_innermost(&reference("a", 16, 0, &[]), &mut nest).unwrap();
    insert_at_innermost(&reference("b", 16, 0, &[]), &mut nest).unwrap();
    let h = trace_histogram(&nest, 4, 64).unwrap();
    assert_eq!(h.cold(), 2);
    assert_eq!(h.count(Distance::Finite(1)), 2);
    assert_eq!(h.total(), 4);
}

#[test]
fn zero_trip_loops_touch_nothing() {
    let mut nest = nested_loops(&["i", "j"], 0);
    insert_at_innermost(&reference("x", 1, 0, &[("i", 1)]), &mut nest).unwrap();
    let h = trace_histogram(&nest, 8, 64).unwrap();
    assert_eq!(h.total(), 0);
    let mut negative = nested_loops(&["i"], -5);
    insert_at_innermost(&reference("x", 1, 0, &[("i", 1)]), &mut negative).unwrap();
    assert_eq!(trace_histogram(&negative, 8, 64).unwrap().total(), 0);
}

#[test]
fn nest_without_loops_runs_its_body_once() {
    let mut nest = LoopNest::new();
    insert_at_innermost(&reference("x", 1, 0, &[]), &mut nest).unwrap();
    insert_at_innermost(&reference("x", 1, 0, &[]), &mut nest).unwrap();
    let h = trace_histogram(&nest, 8, 64).unwrap();
    assert_eq!(h.cold(), 1);
    assert_eq!(h.count(Distance::Finite(0)), 1);
}

#[test]
fn quantization_groups_elements_by_line() {
    let mut nest = nested_loops(&["i"], 32);
    insert_at_innermost(&reference("x", 32, 0, &[("i", 1)]), &mut nest).unwrap();
    let h = trace_histogram(&nest, 4, 64).unwrap();
    assert_eq!(h.cold(), 2);
    assert_eq!(h.count(Distance::Finite(0)), 30);
    let h = trace_histogram(&nest, 8, 64).unwrap();
    assert_eq!(h.cold(), 4);
    assert_eq!(h.count(Distance::Finite(0)), 28);
    let h = trace_histogram(&nest, 8, 1).unwrap();
    assert_eq!(h.cold(), 32);
    assert_eq!(h.total(), 32);
}

#[test]
fn negative_step_walks_downwards() {
    let mut nest = LoopNest::new();
    nest.push_loop(LoopDim {
        name: "i".to_string(),
        lower: Affine { constant: 3, terms: vec![] },
        upper: Affine { constant: -1, terms: vec![] },
        step: -1,
    })
    .unwrap();
    insert_at_innermost(&reference("x", 4, 0, &[("i", 1)]), &mut nest).unwrap();
    insert_at_innermost(&reference("x", 4, 3, &[]), &mut nest).unwrap();
    // lines 3 3 2 3 1 3 0 3
    let h = trace_histogram(&nest, 1, 1).unwrap();
    assert_eq!(h.cold(), 4);
    assert_eq!(h.count(Distance::Finite(0)), 1);
    assert_eq!(h.count(Distance::Finite(1)), 3);
    assert_eq!(h.total(), 8);
}

#[test]
fn step_larger_than_one() {
    let mut nest = LoopNest::new();
    nest.push_loop(LoopDim {
        name: "i".to_string(),
        lower: Affine { constant: 1, terms: vec![] },
        upper: Affine { constant: 10, terms: vec![] },
        step: 4,
    })
    .unwrap();
    insert_at_innermost(&reference("x", 16, 0, &[("i", 1)]), &mut nest).unwrap();
    // i = 1, 5, 9
    let h = trace_histogram(&nest, 1, 1).unwrap();
    assert_eq!(h.cold(), 3);
    assert_eq!(h.total(), 3);
}

#[test]
fn triangular_domain_counts_closed_form() {
    for n in 0..9i64 {
        let mut nest = LoopNest::new();
        nest.push_loop(LoopDim {
            name: "i".to_string(),
            lower: Affine { constant: 0, terms: vec![] },
            upper: Affine { constant: n, terms: vec![] },
            step: 1,
        })
        .unwrap();
        nest.push_loop(LoopDim {
            name: "j".to_string(),
            lower: Affine { constant: 0, terms: vec![Term { dim: 0, coeff: 1 }] },
            upper: Affine { constant: n, terms: vec![] },
            step: 1,
        })
        .unwrap();
        insert_at_innermost(&reference("x", 100, 0, &[("i", 10), ("j", 1)]), &mut nest).unwrap();
        let h = trace_histogram(&nest, 1, 1).unwrap();
        assert_eq!(h.total(), (n * (n + 1) / 2) as u64);
        assert_eq!(h.cold(), (n * (n + 1) / 2) as u64);
    }
}

#[test]
fn reversing_the_iteration_order_changes_the_histogram() {
    let forward = {
        let mut nest = nested_loops(&["i"], 3);
        insert_at_innermost(&reference("x", 8, 0, &[("i", 1)]), &mut nest).unwrap();
        insert_at_innermost(&reference("x", 8, 1, &[("i", 1)]), &mut nest).unwrap();
        trace_histogram(&nest, 1, 1).unwrap()
    };
    let backward = {
        let mut nest = LoopNest::new();
        nest.push_loop(LoopDim {
            name: "i".to_string(),
            lower: Affine { constant: 2, terms: vec![] },
            upper: Affine { constant: -1, terms: vec![] },
            step: -1,
        })
        .unwrap();
        insert_at_innermost(&reference("x", 8, 0, &[("i", 1)]), &mut nest).unwrap();
        insert_at_innermost(&reference("x", 8, 1, &[("i", 1)]), &mut nest).unwrap();
        trace_histogram(&nest, 1, 1).unwrap()
    };
    // forward touches 0 1 1 2 2 3, backward 2 3 1 2 0 1
    assert_eq!(forward.cold(), 4);
    assert_eq!(forward.count(Distance::Finite(0)), 2);
    assert_eq!(backward.cold(), 4);
    assert_eq!(backward.count(Distance::Finite(2)), 2);
    assert_ne!(forward, backward);
}

#[test]
fn tracing_twice_gives_the_same_histogram() {
    let nest = matrix_product_nest(6);
    let first = trace_histogram(&nest, 8, 32).unwrap();
    let second = trace_histogram(&nest, 8, 32).unwrap();
    assert_eq!(first, second);
    let again = trace_histogram(&matrix_product_nest(6), 8, 32).unwrap();
    assert_eq!(first, again);
}

#[test]
fn matrix_product_counts_every_access() {
    let h = perform_matrix_operations(4).unwrap();
    assert_eq!(h.total(), 3 * 4 * 4 * 4);
    // three arrays of 16 elements of 8 bytes in lines of 32 bytes
    assert_eq!(h.cold(), 3 * 16 * 8 / 32);
    let mut sum = h.cold();
    for d in 0..h.span() {
        sum += h.count(Distance::Finite(d));
    }
    assert_eq!(sum, h.total());
    assert_eq!(h.hits_below(h.span()) + h.cold(), h.total());
}

#[test]
fn matrix_product_of_side_one() {
    let h = perform_matrix_operations(1).unwrap();
    assert_eq!(h.total(), 3);
    assert_eq!(h.cold(), 3);
    let h = perform_matrix_operations(0).unwrap();
    assert_eq!(h.total(), 0);
}

#[test]
fn matrix_product_too_large_for_the_address_space() {
    assert_eq!(perform_matrix_operations(i32::MAX), Err(TraceError::OutOfRange));
    assert_eq!(perform_matrix_operations(i32::MIN).unwrap().total(), 0);
    assert_eq!(perform_matrix_operations(-3).unwrap().total(), 0);
}

#[test]
fn matrix_product_of_side_two() {
    // c at elements 0..4, a at 4..8, b at 8..12; 4 elements per line
    // lines touched: c a b, for (i, j, k) in order
    // (0,0,0) 0 1 2   (0,0,1) 0 1 2   (0,1,0) 0 1 2   (0,1,1) 0 1 2
    // (1,0,0) 0 1 2   ...
    let h = perform_matrix_operations(2).unwrap();
    assert_eq!(h.total(), 24);
    assert_eq!(h.cold(), 3);
    assert_eq!(h.count(Distance::Finite(2)), 21);
}

#[test]
fn square_reference_is_row_major() {
    let r = squ_ref("a", 5, vec!["i", "k"]).unwrap();
    assert_eq!(r.array, "a");
    assert_eq!(r.extent, 25);
    assert_eq!(r.constant, 0);
    assert_eq!(
        r.terms,
        vec![
            NamedTerm { var: "i".to_string(), coeff: 5 },
            NamedTerm { var: "k".to_string(), coeff: 1 }
        ]
    );
    let cube = squ_ref("t", 3, vec!["x", "y", "z"]).unwrap();
    assert_eq!(cube.extent, 27);
    assert_eq!(cube.terms[0].coeff, 9);
    assert_eq!(cube.terms[1].coeff, 3);
    assert_eq!(cube.terms[2].coeff, 1);
    let scalar = squ_ref("s", 7, vec![]).unwrap();
    assert_eq!(scalar.extent, 1);
    assert!(scalar.terms.is_empty());
}

#[test]
fn square_reference_too_large() {
    let vars = vec!["a", "b", "c", "d", "e", "f", "g"];
    assert_eq!(squ_ref("x", 1000, vars), Err(DomainError::TooLarge));
    assert!(squ_ref("x", 1000, vec!["a", "b", "c", "d", "e", "f"]).is_ok());
}

#[test]
fn nested_loops_share_the_trip_count() {
    let nest = nested_loops(&["i", "j", "k"], 7);
    assert_eq!(nest.depth(), 3);
    assert_eq!(nest.access_count(), 0);
    for (d, name) in ["i", "j", "k"].iter().enumerate() {
        let dim = nest.dim(d);
        assert_eq!(dim.name, *name);
        assert_eq!(dim.lower, Affine { constant: 0, terms: vec![] });
        assert_eq!(dim.upper, Affine { constant: 7, terms: vec![] });
        assert_eq!(dim.step, 1);
    }
}

#[test]
fn unknown_index_variable_is_refused() {
    let mut nest = nested_loops(&["i", "j"], 4);
    let before = nest.clone();
    let r = insert_at_innermost(&reference("x", 16, 0, &[("i", 4), ("k", 1)]), &mut nest);
    assert_eq!(r, Err(DomainError::UnknownIndex));
    assert_eq!(nest, before);
}

#[test]
fn arrays_are_listed_in_order_of_first_access() {
    let mut nest = nested_loops(&["i", "j"], 4);
    insert_at_innermost(&squ_ref("c", 4, vec!["i", "j"]).unwrap(), &mut nest).unwrap();
    insert_at_innermost(&squ_ref("a", 4, vec!["j", "i"]).unwrap(), &mut nest).unwrap();
    insert_at_innermost(&squ_ref("c", 4, vec!["j", "j"]).unwrap(), &mut nest).unwrap();
    assert_eq!(nest.access_count(), 3);
    assert_eq!(nest.array_count(), 2);
    assert_eq!(nest.array(0).name, "c");
    assert_eq!(nest.array(0).extent, 16);
    assert_eq!(nest.array(1).name, "a");
    assert_eq!(nest.array(1).extent, 16);
    assert_eq!(nest.access(0).array, 0);
    assert_eq!(nest.access(1).array, 1);
    assert_eq!(nest.access(2).array, 0);
    assert_eq!(
        nest.access(1).index.terms,
        vec![Term { dim: 1, coeff: 4 }, Term { dim: 0, coeff: 1 }]
    );
    assert_eq!(
        nest.access(2).index.terms,
        vec![Term { dim: 1, coeff: 4 }, Term { dim: 1, coeff: 1 }]
    );
}

#[test]
fn arrays_never_share_a_cache_line() {
    let mut nest = nested_loops(&["i"], 3);
    insert_at_innermost(&reference("a", 3, 0, &[("i", 1)]), &mut nest).unwrap();
    insert_at_innermost(&reference("b", 3, 0, &[("i", 1)]), &mut nest).unwrap();
    insert_at_innermost(&reference("c", 3, 0, &[("i", 1)]), &mut nest).unwrap();
    // 12 bytes per array, one line each: a b c a b c a b c
    let h = trace_histogram(&nest, 4, 64).unwrap();
    assert_eq!(h.cold(), 3);
    assert_eq!(h.count(Distance::Finite(2)), 6);
    assert_eq!(h.total(), 9);
    // 12 bytes per array in lines of 8 bytes: two lines each
    let h = trace_histogram(&nest, 4, 8).unwrap();
    assert_eq!(h.cold(), 6);
}

#[test]
fn array_with_another_extent_is_refused() {
    let mut nest = nested_loops(&["i"], 4);
    insert_at_innermost(&reference("x", 4, 0, &[("i", 1)]), &mut nest).unwrap();
    let r = insert_at_innermost(&reference("x", 5, 0, &[("i", 1)]), &mut nest);
    assert_eq!(r, Err(DomainError::ExtentMismatch));
    assert_eq!(nest.access_count(), 1);
}

#[test]
fn arrays_beyond_the_address_space_are_refused() {
    let mut nest = nested_loops(&["i"], 4);
    insert_at_innermost(&reference("x", u64::MAX, 0, &[("i", 1)]), &mut nest).unwrap();
    assert!(trace_histogram(&nest, 1, 1).is_ok());
    assert_eq!(trace_histogram(&nest, 2, 1), Err(TraceError::OutOfRange));
    assert_eq!(trace_histogram(&nest, 1, 2), Err(TraceError::OutOfRange));
    insert_at_innermost(&reference("y", 1, 0, &[]), &mut nest).unwrap();
    assert_eq!(trace_histogram(&nest, 1, 1), Err(TraceError::OutOfRange));
}

#[test]
fn loops_are_checked_when_added() {
    let mut nest = LoopNest::new();
    let zero = LoopDim {
        name: "i".to_string(),
        lower: Affine { constant: 0, terms: vec![] },
        upper: Affine { constant: 4, terms: vec![] },
        step: 0,
    };
    assert_eq!(nest.push_loop(zero), Err(DomainError::ZeroStep));
    let unbound = LoopDim {
        name: "i".to_string(),
        lower: Affine { constant: 0, terms: vec![Term { dim: 0, coeff: 1 }] },
        upper: Affine { constant: 4, terms: vec![] },
        step: 1,
    };
    assert_eq!(nest.push_loop(unbound), Err(DomainError::UnboundIndex));
    assert_eq!(nest.depth(), 0);
}

#[test]
fn sizes_must_be_positive() {
    let nest = matrix_product_nest(2);
    assert_eq!(trace_histogram(&nest, 0, 64), Err(TraceError::ZeroElementSize));
    assert_eq!(trace_histogram(&nest, 8, 0), Err(TraceError::ZeroCacheLineSize));
    assert_eq!(trace_histogram(&nest, 0, 0), Err(TraceError::ZeroElementSize));
}

#[test]
fn accesses_outside_the_array_are_refused() {
    let mut nest = nested_loops(&["i"], 2);
    insert_at_innermost(&reference("x", 2, -1, &[("i", 1)]), &mut nest).unwrap();
    assert_eq!(trace_histogram(&nest, 8, 64), Err(TraceError::OutOfRange));
    let mut nest = nested_loops(&["i"], 3);
    insert_at_innermost(&reference("x", 2, 0, &[("i", 1)]), &mut nest).unwrap();
    assert_eq!(trace_histogram(&nest, 8, 64), Err(TraceError::OutOfRange));
    let mut nest = nested_loops(&["i"], 2);
    insert_at_innermost(&reference("x", 2, 0, &[("i", 1)]), &mut nest).unwrap();
    assert!(trace_histogram(&nest, 8, 64).is_ok());
    let mut nest = nested_loops(&["i"], 2);
    insert_at_innermost(&reference("x", u64::MAX, i64::MAX, &[("i", 1)]), &mut nest).unwrap();
    assert_eq!(trace_histogram(&nest, 1, 64), Err(TraceError::OutOfRange));
}

#[test]
fn bounds_out_of_range_are_refused() {
    let mut nest = nested_loops(&["i"], 2);
    nest.push_loop(LoopDim {
        name: "j".to_string(),
        lower: Affine { constant: i64::MAX, terms: vec![Term { dim: 0, coeff: 1 }] },
        upper: Affine { constant: 0, terms: vec![] },
        step: 1,
    })
    .unwrap();
    assert_eq!(trace_histogram(&nest, 8, 64), Err(TraceError::OutOfRange));
}

#[test]
fn loop_running_into_the_end_of_the_range_stops() {
    let mut nest = LoopNest::new();
    nest.push_loop(LoopDim {
        name: "i".to_string(),
        lower: Affine { constant: i64::MAX - 5, terms: vec![] },
        upper: Affine { constant: i64::MAX, terms: vec![] },
        step: 4,
    })
    .unwrap();
    insert_at_innermost(&reference("x", 1, 0, &[]), &mut nest).unwrap();
    // i = MAX - 5 and MAX - 1
    assert_eq!(trace_histogram(&nest, 8, 64).unwrap().total(), 2);
}

#[test]
fn affine_evaluation_is_checked() {
    let e = Affine { constant: 5, terms: vec![Term { dim: 1, coeff: -3 }, Term { dim: 0, coeff: 2 }] };
    assert_eq!(e.eval(&vec![10, 4]), Some(5 - 12 + 20));
    let big = Affine { constant: i64::MAX, terms: vec![Term { dim: 0, coeff: 1 }] };
    assert_eq!(big.eval(&vec![0]), Some(i64::MAX));
    assert_eq!(big.eval(&vec![1]), None);
    assert_eq!(big.eval(&vec![-1]), Some(i64::MAX - 1));
    assert_eq!(Affine::constant(9).eval(&vec![]), Some(9));
    assert_eq!(Affine::linear(1, 0, 2).eval(&vec![7]), Some(15));
}

#[test]
fn benchmarks_are_found_by_name() {
    assert_eq!(lookup_benchmark("mvt"), Some(Benchmark::Mvt));
    assert_eq!(lookup_benchmark("trisolv"), Some(Benchmark::Trisolv));
    assert_eq!(lookup_benchmark("syrk"), Some(Benchmark::Syrk));
    assert_eq!(lookup_benchmark("lu"), Some(Benchmark::Lu));
    assert_eq!(lookup_benchmark("trmm_trace"), Some(Benchmark::TrmmTrace));
    assert_eq!(lookup_benchmark("lu_affine"), Some(Benchmark::LuAffine));
    assert_eq!(lookup_benchmark("syr2d"), Some(Benchmark::Syr2d));
    assert_eq!(lookup_benchmark("gemm"), Some(Benchmark::Gemm));
    assert_eq!(lookup_benchmark("cholesky"), Some(Benchmark::Cholesky));
    assert_eq!(lookup_benchmark("gramschmidt_trace"), Some(Benchmark::GramschmidtTrace));
    assert_eq!(lookup_benchmark("3mm"), Some(Benchmark::ThreeMm));
    assert_eq!(lookup_benchmark("2mm"), Some(Benchmark::TwoMm));
    assert_eq!(lookup_benchmark("heat_3d"), Some(Benchmark::Heat3d));
    assert_eq!(lookup_benchmark("convolution_2d"), Some(Benchmark::Convolution2d));
    assert_eq!(lookup_benchmark("symm"), Some(Benchmark::Symm));
    assert_eq!(lookup_benchmark("gemver"), None);
    assert_eq!(lookup_benchmark(""), None);
    assert_eq!(lookup_benchmark("GEMM"), None);
}

#[test]
fn benchmark_names_round_trip() {
    let all = [
        Benchmark::Mvt,
        Benchmark::Trisolv,
        Benchmark::Syrk,
        Benchmark::Lu,
        Benchmark::TrmmTrace,
        Benchmark::LuAffine,
        Benchmark::Syr2d,
        Benchmark::Gemm,
        Benchmark::Cholesky,
        Benchmark::GramschmidtTrace,
        Benchmark::ThreeMm,
        Benchmark::TwoMm,
        Benchmark::Heat3d,
        Benchmark::Convolution2d,
        Benchmark::Symm,
    ];
    for b in all {
        assert_eq!(lookup_benchmark(b.name()), Some(b));
    }
}

#[test]
fn parameters_are_counted() {
    assert_eq!(Benchmark::Gemm.required_params(), 1);
    assert_eq!(Benchmark::Syrk.required_params(), 2);
    assert_eq!(Benchmark::TwoMm.required_params(), 4);
    assert_eq!(Benchmark::ThreeMm.required_params(), 5);
    assert_eq!(check_params(2, &[1, 2]), Ok(()));
    assert_eq!(check_params(0, &[]), Ok(()));
    assert_eq!(
        check_params(2, &[1]),
        Err(ConfigError::MissingParameters { required: 2, provided: 1 })
    );
    assert_eq!(select_benchmark("symm", &[32, 32]), Ok(Benchmark::Symm));
    assert_eq!(
        select_benchmark("symm", &[32]),
        Err(ConfigError::MissingParameters { required: 2, provided: 1 })
    );
    assert_eq!(
        select_benchmark("lu", &[]),
        Err(ConfigError::MissingParameters { required: 1, provided: 0 })
    );
    assert_eq!(select_benchmark("nothing", &[1, 2, 3]), Err(ConfigError::UnknownBenchmark));
}

#[test]
fn kernel_is_built_then_traced() {
    let build = |b: Benchmark, params: &[usize]| {
        assert_eq!(b, Benchmark::Gemm);
        matrix_product_nest(params[0] as i32)
    };
    let h = trace_polybench("gemm", 8, 32, &[4], build).unwrap();
    assert_eq!(h, perform_matrix_operations(4).unwrap());
}

#[test]
fn kernel_is_not_built_for_a_refused_request() {
    let never = |_: Benchmark, _: &[usize]| -> LoopNest { panic!("built") };
    assert_eq!(
        trace_polybench("gemm", 8, 32, &[], never),
        Err(Error::Config(ConfigError::MissingParameters { required: 1, provided: 0 }))
    );
    assert_eq!(
        trace_polybench("gemver", 8, 32, &[4], never),
        Err(Error::Config(ConfigError::UnknownBenchmark))
    );
    let build = |_: Benchmark, params: &[usize]| matrix_product_nest(params[0] as i32);
    assert_eq!(
        trace_polybench("lu", 0, 32, &[4], build),
        Err(Error::Trace(TraceError::ZeroElementSize))
    );
}
