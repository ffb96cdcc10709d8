//! The benchmark kernels known by name, and tracing one of them.

use crate::address::arrays_fit;
use crate::affine::Term;
use crate::histogram::Histogram;
use crate::nest::{
    array_named, insert_at_innermost, loop_named, nested_loops, power, resolved_terms,
    square_fits, squ_ref, Access, ArrayDecl, LoopNest,
};
use crate::square::{
    counted_loops, lemma_counted_loops, lemma_square_access_fits, row_major, square_extent,
};
use crate::trace::{trace_error, trace_histogram, traced, TraceError};
use crate::walker::{body_fits, lemma_points_visited, points, walk_fits};
use vstd::prelude::*;

verus! {

/// The kernels that can be asked for by name.
#[derive(Clone, Copy, Debug, PartialEq, Eq, Structural)]
pub enum Benchmark {
    Mvt,
    Trisolv,
    Syrk,
    Lu,
    TrmmTrace,
    LuAffine,
    Syr2d,
    Gemm,
    Cholesky,
    GramschmidtTrace,
    ThreeMm,
    TwoMm,
    Heat3d,
    Convolution2d,
    Symm,
}

/// Why a request for a kernel is refused before anything is built.
#[derive(Clone, Copy, Debug, PartialEq, Eq, Structural)]
pub enum ConfigError {
    /// No kernel has this name.
    UnknownBenchmark,
    /// The kernel takes more positional parameters than were given.
    MissingParameters { required: usize, provided: usize },
}

/// Why a kernel could not be traced.
#[derive(Clone, Copy, Debug, PartialEq, Eq, Structural)]
pub enum Error {
    Config(ConfigError),
    Trace(TraceError),
}

/// The kernel called `name`, if there is one.
pub open spec fn benchmark_named(name: Seq<char>) -> Option<Benchmark> {
    if name == "mvt"@ {
        Some(Benchmark::Mvt)
    } else if name == "trisolv"@ {
        Some(Benchmark::Trisolv)
    } else if name == "syrk"@ {
        Some(Benchmark::Syrk)
    } else if name == "lu"@ {
        Some(Benchmark::Lu)
    } else if name == "trmm_trace"@ {
        Some(Benchmark::TrmmTrace)
    } else if name == "lu_affine"@ {
        Some(Benchmark::LuAffine)
    } else if name == "syr2d"@ {
        Some(Benchmark::Syr2d)
    } else if name == "gemm"@ {
        Some(Benchmark::Gemm)
    } else if name == "cholesky"@ {
        Some(Benchmark::Cholesky)
    } else if name == "gramschmidt_trace"@ {
        Some(Benchmark::GramschmidtTrace)
    } else if name == "3mm"@ {
        Some(Benchmark::ThreeMm)
    } else if name == "2mm"@ {
        Some(Benchmark::TwoMm)
    } else if name == "heat_3d"@ {
        Some(Benchmark::Heat3d)
    } else if name == "convolution_2d"@ {
        Some(Benchmark::Convolution2d)
    } else if name == "symm"@ {
        Some(Benchmark::Symm)
    } else {
        None
    }
}

impl Benchmark {
    /// The number of positional parameters that the kernel takes.
    pub open spec fn arity(self) -> nat {
        match self {
            Benchmark::Mvt => 1,
            Benchmark::Trisolv => 1,
            Benchmark::Syrk => 2,
            Benchmark::Lu => 1,
            Benchmark::TrmmTrace => 2,
            Benchmark::LuAffine => 1,
            Benchmark::Syr2d => 2,
            Benchmark::Gemm => 1,
            Benchmark::Cholesky => 1,
            Benchmark::GramschmidtTrace => 2,
            Benchmark::ThreeMm => 5,
            Benchmark::TwoMm => 4,
            Benchmark::Heat3d => 2,
            Benchmark::Convolution2d => 2,
            Benchmark::Symm => 2,
        }
    }

    /// The number of positional parameters that the kernel takes.
    pub fn required_params(self) -> (n: usize)
        ensures
            n == self.arity(),
    {
        match self {
            Benchmark::Mvt => 1,
            Benchmark::Trisolv => 1,
            Benchmark::Syrk => 2,
            Benchmark::Lu => 1,
            Benchmark::TrmmTrace => 2,
            Benchmark::LuAffine => 1,
            Benchmark::Syr2d => 2,
            Benchmark::Gemm => 1,
            Benchmark::Cholesky => 1,
            Benchmark::GramschmidtTrace => 2,
            Benchmark::ThreeMm => 5,
            Benchmark::TwoMm => 4,
            Benchmark::Heat3d => 2,
            Benchmark::Convolution2d => 2,
            Benchmark::Symm => 2,
        }
    }

    /// The name under which the kernel is asked for.
    pub fn name(self) -> (s: &'static str)
        ensures
            benchmark_named(s@) == Some(self),
    {
        proof {
            reveal_strlit("mvt");
            reveal_strlit("trisolv");
            reveal_strlit("syrk");
            reveal_strlit("lu");
            reveal_strlit("trmm_trace");
            reveal_strlit("lu_affine");
            reveal_strlit("syr2d");
            reveal_strlit("gemm");
            reveal_strlit("cholesky");
            reveal_strlit("gramschmidt_trace");
            reveal_strlit("3mm");
            reveal_strlit("2mm");
            reveal_strlit("heat_3d");
            reveal_strlit("convolution_2d");
            reveal_strlit("symm");
            assert("mvt"@.len() == 3 && "mvt"@[0] == 'm');
            assert("3mm"@.len() == 3 && "3mm"@[0] == '3');
            assert("2mm"@.len() == 3 && "2mm"@[0] == '2');
            assert("syrk"@.len() == 4 && "syrk"@[0] == 's' && "syrk"@[2] == 'r');
            assert("gemm"@.len() == 4 && "gemm"@[0] == 'g');
            assert("symm"@.len() == 4 && "symm"@[0] == 's' && "symm"@[2] == 'm');
            assert("trisolv"@.len() == 7 && "trisolv"@[0] == 't');
            assert("heat_3d"@.len() == 7 && "heat_3d"@[0] == 'h');
            assert("lu"@.len() == 2);
            assert("syr2d"@.len() == 5);
            assert("cholesky"@.len() == 8);
            assert("lu_affine"@.len() == 9);
            assert("trmm_trace"@.len() == 10);
            assert("convolution_2d"@.len() == 14);
            assert("gramschmidt_trace"@.len() == 17);
        }
        match self {
            Benchmark::Mvt => "mvt",
            Benchmark::Trisolv => "trisolv",
            Benchmark::Syrk => "syrk",
            Benchmark::Lu => "lu",
            Benchmark::TrmmTrace => "trmm_trace",
            Benchmark::LuAffine => "lu_affine",
            Benchmark::Syr2d => "syr2d",
            Benchmark::Gemm => "gemm",
            Benchmark::Cholesky => "cholesky",
            Benchmark::GramschmidtTrace => "gramschmidt_trace",
            Benchmark::ThreeMm => "3mm",
            Benchmark::TwoMm => "2mm",
            Benchmark::Heat3d => "heat_3d",
            Benchmark::Convolution2d => "convolution_2d",
            Benchmark::Symm => "symm",
        }
    }
}

/// The kernel called `bench`, if there is one.
pub fn lookup_benchmark(bench: &str) -> (r: Option<Benchmark>)
    ensures
        r == benchmark_named(bench@),
{
    let name = bench.to_owned();
    if name == "mvt".to_owned() {
        Some(Benchmark::Mvt)
    } else if name == "trisolv".to_owned() {
        Some(Benchmark::Trisolv)
    } else if name == "syrk".to_owned() {
        Some(Benchmark::Syrk)
    } else if name == "lu".to_owned() {
        Some(Benchmark::Lu)
    } else if name == "trmm_trace".to_owned() {
        Some(Benchmark::TrmmTrace)
    } else if name == "lu_affine".to_owned() {
        Some(Benchmark::LuAffine)
    } else if name == "syr2d".to_owned() {
        Some(Benchmark::Syr2d)
    } else if name == "gemm".to_owned() {
        Some(Benchmark::Gemm)
    } else if name == "cholesky".to_owned() {
        Some(Benchmark::Cholesky)
    } else if name == "gramschmidt_trace".to_owned() {
        Some(Benchmark::GramschmidtTrace)
    } else if name == "3mm".to_owned() {
        Some(Benchmark::ThreeMm)
    } else if name == "2mm".to_owned() {
        Some(Benchmark::TwoMm)
    } else if name == "heat_3d".to_owned() {
        Some(Benchmark::Heat3d)
    } else if name == "convolution_2d".to_owned() {
        Some(Benchmark::Convolution2d)
    } else if name == "symm".to_owned() {
        Some(Benchmark::Symm)
    } else {
        None
    }
}

/// Whether `params` holds the `required` positional parameters.
pub fn check_params(required: usize, params: &[usize]) -> (r: Result<(), ConfigError>)
    ensures
        match r {
            Ok(()) => params@.len() >= required,
            Err(e) => params@.len() < required && e == (ConfigError::MissingParameters {
                required,
                provided: params@.len() as usize,
            }),
        },
{
    if params.len() < required {
        Err(ConfigError::MissingParameters { required, provided: params.len() })
    } else {
        Ok(())
    }
}

/// What a request for the kernel `name` with `provided` parameters comes
/// to: the kernel, or why the request is refused.
pub open spec fn selection(name: Seq<char>, provided: nat) -> Result<Benchmark, ConfigError> {
    match benchmark_named(name) {
        None => Err(ConfigError::UnknownBenchmark),
        Some(b) => if provided < b.arity() {
            Err(
                ConfigError::MissingParameters {
                    required: b.arity() as usize,
                    provided: provided as usize,
                },
            )
        } else {
            Ok(b)
        },
    }
}

/// Finds the kernel called `bench` and checks that `params` holds the
/// parameters it takes.
pub fn select_benchmark(bench: &str, params: &[usize]) -> (r: Result<Benchmark, ConfigError>)
    ensures
        r == selection(bench@, params@.len()),
{
    match lookup_benchmark(bench) {
        None => Err(ConfigError::UnknownBenchmark),
        Some(b) => match check_params(b.required_params(), params) {
            Err(e) => Err(e),
            Ok(()) => Ok(b),
        },
    }
}

/// Traces the kernel called `bench`: finds it, checks its parameters, has
/// `build` construct its nest, and returns the histogram of the nest for
/// elements of `data_type_size` bytes and cache lines of `cache_line_size`
/// bytes.
pub fn trace_polybench<F: FnOnce(Benchmark, &[usize]) -> LoopNest>(
    bench: &str,
    data_type_size: usize,
    cache_line_size: usize,
    params: &[usize],
    build: F,
) -> (r: Result<Histogram, Error>)
    requires
        forall|b: Benchmark|
            selection(bench@, params@.len()) == Ok::<Benchmark, ConfigError>(b) ==> call_requires(
                build,
                (b, params),
            ),
        forall|b: Benchmark, nest: LoopNest| call_ensures(build, (b, params), nest) ==> nest.wf(),
    ensures
        match r {
            Err(Error::Config(e)) => selection(bench@, params@.len()) == Err::<
                Benchmark,
                ConfigError,
            >(e),
            Err(Error::Trace(e)) => exists|b: Benchmark, nest: LoopNest|
                selection(bench@, params@.len()) == Ok::<Benchmark, ConfigError>(b) && call_ensures(
                    build,
                    (b, params),
                    nest,
                ) && trace_error(nest, data_type_size, cache_line_size) == Some(e),
            Ok(h) => exists|b: Benchmark, nest: LoopNest|
                selection(bench@, params@.len()) == Ok::<Benchmark, ConfigError>(b) && call_ensures(
                    build,
                    (b, params),
                    nest,
                ) && trace_error(nest, data_type_size, cache_line_size).is_none() && h.wf() && h@
                    == traced(nest, data_type_size, cache_line_size),
        },
{
    let kernel = match select_benchmark(bench, params) {
        Err(e) => {
            return Err(Error::Config(e));
        },
        Ok(b) => b,
    };
    let nest = build(kernel, params);
    match trace_histogram(&nest, data_type_size, cache_line_size) {
        Err(e) => Err(Error::Trace(e)),
        Ok(h) => Ok(h),
    }
}

/// `access` touches element `side * index(row) + index(column)` of the
/// array at position `array`.
pub open spec fn square_access(
    access: Access,
    array: usize,
    side: int,
    row: usize,
    column: usize,
) -> bool {
    &&& access.array == array
    &&& access.index.constant == 0
    &&& access.index.terms@ == seq![
        Term { dim: row, coeff: side as i64 },
        Term { dim: column, coeff: 1 },
    ]
}

/// `array` is the square array called `name` with `side` rows and columns.
pub open spec fn square_array(array: ArrayDecl, name: Seq<char>, side: int) -> bool {
    &&& array.name@ == name
    &&& array.extent == if side > 0 {
        side * side
    } else {
        0
    }
}

/// The nest of the product of two square matrices of side `side`, written
/// `c[i, j] += a[i, k] * b[k, j]` under the loops `i`, `j`, `k`: the body
/// touches `c`, `a` and `b` in this order.
pub open spec fn matrix_product_shape(nest: LoopNest, side: int) -> bool {
    &&& nest.dims().len() == 3
    &&& nest.dims()[0].counts("i"@, side)
    &&& nest.dims()[1].counts("j"@, side)
    &&& nest.dims()[2].counts("k"@, side)
    &&& nest.arrays().len() == 3
    &&& square_array(nest.arrays()[0], "c"@, side)
    &&& square_array(nest.arrays()[1], "a"@, side)
    &&& square_array(nest.arrays()[2], "b"@, side)
    &&& nest.accesses().len() == 3
    &&& square_access(nest.accesses()[0], 0, side, 0, 1)
    &&& square_access(nest.accesses()[1], 1, side, 0, 2)
    &&& square_access(nest.accesses()[2], 2, side, 2, 1)
}

proof fn lemma_squares(side: int)
    requires
        i32::MIN <= side <= i32::MAX,
    ensures
        square_fits(side, 2),
        power(side, 0) == 1,
        power(side, 1) == side,
        power(side, 2) == side * side,
        0 <= side * side <= 0x4000_0000_0000_0000,
{
    reveal_with_fuel(power, 3);
    assert(0 <= side * side <= 0x4000_0000_0000_0000) by (nonlinear_arith)
        requires
            -0x8000_0000 <= side <= 0x8000_0000,
    ;
    assert(side * (side * 1) == side * side) by (nonlinear_arith);
    assert forall|j: nat| j <= 2 implies i64::MIN <= #[trigger] power(side, j) <= i64::MAX by {
        if j == 0 {
        } else if j == 1 {
        } else {
            assert(j == 2);
        }
    }
}

/// Builds the nest of the product of two square matrices of side `n`.
#[verifier::rlimit(30)]
pub fn matrix_product_nest(n: i32) -> (nest: LoopNest)
    ensures
        nest.wf(),
        matrix_product_shape(nest, n as int),
{
    proof {
        lemma_squares(n as int);
        lemma_squares(0);
        reveal_strlit("i");
        reveal_strlit("j");
        reveal_strlit("k");
        reveal_strlit("a");
        reveal_strlit("b");
        reveal_strlit("c");
        assert("i"@.len() == 1 && "i"@[0] == 'i');
        assert("j"@.len() == 1 && "j"@[0] == 'j');
        assert("k"@.len() == 1 && "k"@[0] == 'k');
        assert("a"@.len() == 1 && "a"@[0] == 'a');
        assert("b"@.len() == 1 && "b"@[0] == 'b');
        assert("c"@.len() == 1 && "c"@[0] == 'c');
        reveal_with_fuel(loop_named, 4);
        reveal_with_fuel(array_named, 4);
    }
    let names = vec!["i", "j", "k"];
    let mut nest = nested_loops(names.as_slice(), n);
    let ghost empty = nest;
    assert(nest.dims()[0].counts("i"@, n as int));
    assert(nest.dims()[1].counts("j"@, n as int));
    assert(nest.dims()[2].counts("k"@, n as int));
    let ref_c = match squ_ref("c", n, vec!["i", "j"]) {
        Ok(reference) => reference,
        Err(_) => unreached(),
    };
    let ref_a = match squ_ref("a", n, vec!["i", "k"]) {
        Ok(reference) => reference,
        Err(_) => unreached(),
    };
    let ref_b = match squ_ref("b", n, vec!["k", "j"]) {
        Ok(reference) => reference,
        Err(_) => unreached(),
    };
    match insert_at_innermost(&ref_c, &mut nest) {
        Ok(()) => {},
        Err(_) => {
            assert(false);
        },
    }
    let ghost with_c = nest;
    assert(resolved_terms(ref_c, empty.dims()) =~= seq![
        Term { dim: 0, coeff: n as i64 },
        Term { dim: 1, coeff: 1 },
    ]);
    match insert_at_innermost(&ref_a, &mut nest) {
        Ok(()) => {},
        Err(_) => {
            assert(false);
        },
    }
    let ghost with_a = nest;
    assert(with_a.accesses()[0] == with_a.accesses().drop_last()[0]);
    assert(with_a.arrays()[0] == with_a.arrays().drop_last()[0]);
    assert(resolved_terms(ref_a, with_c.dims()) =~= seq![
        Term { dim: 0, coeff: n as i64 },
        Term { dim: 2, coeff: 1 },
    ]);
    match insert_at_innermost(&ref_b, &mut nest) {
        Ok(()) => {},
        Err(_) => {
            assert(false);
        },
    }
    assert(nest.accesses()[0] == nest.accesses().drop_last()[0]);
    assert(nest.accesses()[1] == nest.accesses().drop_last()[1]);
    assert(nest.arrays()[0] == nest.arrays().drop_last()[0]);
    assert(nest.arrays()[1] == nest.arrays().drop_last()[1]);
    assert(resolved_terms(ref_b, with_a.dims()) =~= seq![
        Term { dim: 2, coeff: n as i64 },
        Term { dim: 1, coeff: 1 },
    ]);
    nest
}

/// The matrix product can be walked whatever its side: every access
/// stays inside its array.
#[verifier::rlimit(30)]
pub proof fn lemma_matrix_product_walks(nest: LoopNest, side: int)
    requires
        nest.wf(),
        matrix_product_shape(nest, side),
        i32::MIN <= side <= i32::MAX,
    ensures
        walk_fits(nest),
{
    let dims = nest.dims();
    let arrays = nest.arrays();
    let accesses = nest.accesses();
    lemma_squares(side);
    lemma_squares(0);
    assert(counted_loops(dims, side)) by {
        assert forall|d: int| 0 <= d < dims.len() implies (#[trigger] dims[d]).counts(
            dims[d].name@,
            side,
        ) by {
            if d == 0 {
            } else if d == 1 {
            } else {
                assert(d == 2);
            }
        }
    }
    lemma_counted_loops(dims, side);
    lemma_points_visited(dims);
    assert forall|a: int| 0 <= a < 3 implies row_major(#[trigger] accesses[a], side, 3)
        && accesses[a].array < 3 && arrays[accesses[a].array as int].extent == square_extent(
        side,
        2,
    ) && accesses[a].index.terms@.len() == 2 by {
        if a == 0 {
        } else if a == 1 {
        } else {
            assert(a == 2);
        }
    }
    assert forall|i: int| 0 <= i < points(dims).len() implies body_fits(
        arrays,
        accesses,
        #[trigger] points(dims)[i],
    ) by {
        assert forall|a: int| 0 <= a < accesses.len() implies crate::address::access_fits(
            arrays,
            #[trigger] accesses[a],
            points(dims)[i],
        ) by {
            lemma_square_access_fits(dims, arrays, accesses[a], side, points(dims)[i]);
        }
    }
}

/// Traces the product of two square matrices of side `n`, for elements of
/// 8 bytes and cache lines of 32 bytes. Fails only where the three
/// matrices do not fit the address space.
pub fn perform_matrix_operations(n: i32) -> (r: Result<Histogram, TraceError>)
    ensures
        exists|nest: LoopNest|
            matrix_product_shape(nest, n as int) && match r {
                Ok(h) => arrays_fit(nest.arrays(), 8, 32) && h.wf() && h@ == traced(nest, 8, 32),
                Err(e) => !arrays_fit(nest.arrays(), 8, 32) && e == TraceError::OutOfRange,
            },
{
    let nest = matrix_product_nest(n);
    proof {
        lemma_matrix_product_walks(nest, n as int);
    }
    trace_histogram(&nest, 8, 32)
}

} // verus!
