//! The domain walker: the iteration points of a nest in program order, and
//! the cache lines that the body touches at each of them.

use crate::address::{access_fits, address, array_base, array_line, line_of, Layout};
use crate::affine::Affine;
use crate::nest::{Access, ArrayDecl, LoopDim, LoopNest};
use crate::tracker::Analysis;
use vstd::prelude::*;

verus! {

/// How far the index value `v` is from the bound `upper`, in the direction
/// the loop moves; zero once the loop has run out.
pub open spec fn span(dim: LoopDim, v: int, upper: int) -> nat {
    if !dim.before(v, upper) {
        0
    } else if dim.step > 0 {
        (upper - v) as nat
    } else {
        (v - upper) as nat
    }
}

/// The iteration points that begin with the indices `p` of the outer
/// loops, in program order: the outer loop varies slowest.
pub open spec fn points_under(dims: Seq<LoopDim>, p: Seq<i64>) -> Seq<Seq<i64>>
    decreases dims.len() - p.len(), 1nat, 0nat,
{
    if p.len() >= dims.len() {
        seq![p]
    } else {
        points_from(dims, p, dims[p.len() as int].lower.value(p))
    }
}

/// The iteration points that begin with `p` and whose next index is `v` or
/// comes after `v`.
pub open spec fn points_from(dims: Seq<LoopDim>, p: Seq<i64>, v: int) -> Seq<Seq<i64>>
    decreases dims.len() - p.len(), 0nat, span(
            dims[p.len() as int],
            v,
            dims[p.len() as int].upper.value(p),
        ),
{
    if p.len() >= dims.len() {
        Seq::empty()
    } else {
        let dim = dims[p.len() as int];
        if dim.step != 0 && dim.before(v, dim.upper.value(p)) {
            points_under(dims, p.push(v as i64)) + points_from(dims, p, v + dim.step)
        } else {
            Seq::empty()
        }
    }
}

/// The iteration points of the whole nest, in program order.
pub open spec fn points(dims: Seq<LoopDim>) -> Seq<Seq<i64>> {
    points_under(dims, Seq::empty())
}

/// The value that the loop `dim` takes in round `k` under the outer
/// indices `p`.
pub open spec fn loop_value(dim: LoopDim, p: Seq<i64>, k: nat) -> int {
    dim.lower.value(p) + k * dim.step
}

/// `v` is a value that the loop `dim` takes under the outer indices `p`.
pub open spec fn on_loop(dim: LoopDim, p: Seq<i64>, v: int) -> bool {
    exists|k: nat| #[trigger] loop_value(dim, p, k) == v && dim.before(v, dim.upper.value(p))
}

/// The walk meets the outer indices `p`: each of them is a value that its
/// loop takes under the indices before it.
pub open spec fn visited(dims: Seq<LoopDim>, p: Seq<i64>) -> bool {
    &&& p.len() <= dims.len()
    &&& forall|d: int| 0 <= d < p.len() ==> on_loop(#[trigger] dims[d], p.take(d), p[d] as int)
}

/// Every loop bound that the walk evaluates stays in the 64-bit range.
pub open spec fn bounds_fit(dims: Seq<LoopDim>) -> bool {
    forall|p: Seq<i64>|
        #[trigger] visited(dims, p) && p.len() < dims.len() ==> dims[p.len() as int].lower.fits(p)
            && dims[p.len() as int].upper.fits(p)
}

/// Every access of the body can be made at the point `p`.
pub open spec fn body_fits(arrays: Seq<ArrayDecl>, accesses: Seq<Access>, p: Seq<i64>) -> bool {
    forall|a: int| 0 <= a < accesses.len() ==> access_fits(arrays, #[trigger] accesses[a], p)
}

/// The walk below `p`, followed loop by loop: every bound met can be
/// computed, and every access can be made.
pub open spec fn fits_under(
    dims: Seq<LoopDim>,
    arrays: Seq<ArrayDecl>,
    accesses: Seq<Access>,
    p: Seq<i64>,
) -> bool
    decreases dims.len() - p.len(), 1nat, 0nat,
{
    if p.len() >= dims.len() {
        body_fits(arrays, accesses, p)
    } else {
        let dim = dims[p.len() as int];
        &&& dim.lower.fits(p)
        &&& dim.upper.fits(p)
        &&& fits_from(dims, arrays, accesses, p, dim.lower.value(p))
    }
}

/// The same for the part of the walk whose next index is `v` or later.
pub open spec fn fits_from(
    dims: Seq<LoopDim>,
    arrays: Seq<ArrayDecl>,
    accesses: Seq<Access>,
    p: Seq<i64>,
    v: int,
) -> bool
    decreases dims.len() - p.len(), 0nat, span(
            dims[p.len() as int],
            v,
            dims[p.len() as int].upper.value(p),
        ),
{
    if p.len() >= dims.len() {
        true
    } else {
        let dim = dims[p.len() as int];
        if dim.step != 0 && dim.before(v, dim.upper.value(p)) {
            &&& fits_under(dims, arrays, accesses, p.push(v as i64))
            &&& fits_from(dims, arrays, accesses, p, v + dim.step)
        } else {
            true
        }
    }
}

/// Every loop moves, and its bounds read the loops around it only.
pub open spec fn loops_wf(dims: Seq<LoopDim>) -> bool {
    forall|d: int| 0 <= d < dims.len() ==> (#[trigger] dims[d]).fits_depth(d as nat)
}

/// Every access of the body can be made at each of the points `pts`.
pub open spec fn bodies_fit(arrays: Seq<ArrayDecl>, accesses: Seq<Access>, pts: Seq<Seq<i64>>) -> bool {
    forall|i: int| 0 <= i < pts.len() ==> body_fits(arrays, accesses, #[trigger] pts[i])
}

/// The walk of the whole nest meets no bound out of range and no access
/// outside its array.
pub open spec fn walk_fits(nest: LoopNest) -> bool {
    bounds_fit(nest.dims()) && bodies_fit(nest.arrays(), nest.accesses(), points(nest.dims()))
}

/// The cache lines that the body touches at the point `p`, in textual
/// order of the accesses.
pub open spec fn body_lines(
    arrays: Seq<ArrayDecl>,
    accesses: Seq<Access>,
    p: Seq<i64>,
    element_size: u64,
    cache_line_size: u64,
) -> Seq<u64> {
    Seq::new(
        accesses.len(),
        |a: int| line_of(arrays, accesses[a], p, element_size, cache_line_size),
    )
}

/// The cache lines touched at the points `pts`, point after point.
pub open spec fn lines_of(
    arrays: Seq<ArrayDecl>,
    accesses: Seq<Access>,
    pts: Seq<Seq<i64>>,
    element_size: u64,
    cache_line_size: u64,
) -> Seq<u64>
    decreases pts.len(),
{
    if pts.len() == 0 {
        Seq::empty()
    } else {
        lines_of(arrays, accesses, pts.drop_last(), element_size, cache_line_size) + body_lines(
            arrays,
            accesses,
            pts.last(),
            element_size,
            cache_line_size,
        )
    }
}

/// The cache lines that the nest touches, in program order.
pub open spec fn line_trace(nest: LoopNest, element_size: u64, cache_line_size: u64) -> Seq<u64> {
    lines_of(nest.arrays(), nest.accesses(), points(nest.dims()), element_size, cache_line_size)
}

pub proof fn lemma_visited_push(dims: Seq<LoopDim>, p: Seq<i64>, v: i64)
    requires
        visited(dims, p),
        p.len() < dims.len(),
        on_loop(dims[p.len() as int], p, v as int),
    ensures
        visited(dims, p.push(v)),
{
    let q = p.push(v);
    assert forall|d: int| 0 <= d < q.len() implies on_loop(
        #[trigger] dims[d],
        q.take(d),
        q[d] as int,
    ) by {
        if d < p.len() {
            assert(q.take(d) =~= p.take(d));
        } else {
            assert(q.take(d) =~= p);
        }
    }
}

pub proof fn lemma_visited_take(dims: Seq<LoopDim>, q: Seq<i64>, d: int)
    requires
        visited(dims, q),
        0 <= d <= q.len(),
    ensures
        visited(dims, q.take(d)),
{
    let p = q.take(d);
    assert forall|e: int| 0 <= e < p.len() implies on_loop(
        #[trigger] dims[e],
        p.take(e),
        p[e] as int,
    ) by {
        assert(p.take(e) =~= q.take(e));
    }
}

proof fn lemma_fits_round(
    dims: Seq<LoopDim>,
    arrays: Seq<ArrayDecl>,
    accesses: Seq<Access>,
    pre: Seq<i64>,
    j: nat,
    k: nat,
)
    requires
        loops_wf(dims),
        pre.len() < dims.len(),
        j <= k,
        fits_from(
            dims,
            arrays,
            accesses,
            pre,
            loop_value(dims[pre.len() as int], pre, j),
        ),
        dims[pre.len() as int].before(
            loop_value(dims[pre.len() as int], pre, k),
            dims[pre.len() as int].upper.value(pre),
        ),
    ensures
        fits_under(
            dims,
            arrays,
            accesses,
            pre.push(loop_value(dims[pre.len() as int], pre, k) as i64),
        ),
    decreases k - j,
{
    let dim = dims[pre.len() as int];
    assert(dim.fits_depth(pre.len()));
    let vj = loop_value(dim, pre, j);
    let vk = loop_value(dim, pre, k);
    assert(dim.before(vj, dim.upper.value(pre))) by (nonlinear_arith)
        requires
            j <= k,
            vj == dim.lower.value(pre) + j * dim.step,
            vk == dim.lower.value(pre) + k * dim.step,
            dim.before(vk, dim.upper.value(pre)),
            dim.step != 0,
    ;
    if j < k {
        assert(loop_value(dim, pre, j + 1) == vj + dim.step) by (nonlinear_arith)
            requires
                vj == dim.lower.value(pre) + j * dim.step,
                loop_value(dim, pre, j + 1) == dim.lower.value(pre) + (j + 1) * dim.step,
        ;
        lemma_fits_round(dims, arrays, accesses, pre, j + 1, k);
    }
}

proof fn lemma_fits_at(
    dims: Seq<LoopDim>,
    arrays: Seq<ArrayDecl>,
    accesses: Seq<Access>,
    p: Seq<i64>)
    requires
        loops_wf(dims),
        fits_under(dims, arrays, accesses, Seq::empty()),
        visited(dims, p),
    ensures
        fits_under(dims, arrays, accesses, p),
    decreases p.len(),
{
    if p.len() == 0 {
        assert(p =~= Seq::<i64>::empty());
    } else {
            let d = p.len() - 1;
        let pre = p.take(d);
        lemma_visited_take(dims, p, d);
        lemma_fits_at(dims, arrays, accesses, pre);
        assert(on_loop(dims[d], p.take(d), p[d] as int));
        let k = choose|k: nat| #[trigger] loop_value(dims[d], pre, k) == p[d];
        assert(loop_value(dims[d], pre, 0) == dims[d].lower.value(pre)) by {
            assert(0 * dims[d].step == 0);
        }
        lemma_fits_round(dims, arrays, accesses, pre, 0, k);
        assert(pre.push(p[d]) =~= p);
    }
}

proof fn lemma_bodies_under(
    dims: Seq<LoopDim>,
    arrays: Seq<ArrayDecl>,
    accesses: Seq<Access>,
    p: Seq<i64>)
    requires
        loops_wf(dims),
        fits_under(dims, arrays, accesses, p),
    ensures
        bodies_fit(arrays, accesses, points_under(dims, p)),
    decreases dims.len() - p.len(), 1nat, 0nat,
{
    if p.len() < dims.len() {
        lemma_bodies_from(dims, arrays, accesses, p, dims[p.len() as int].lower.value(p));
    }
}

proof fn lemma_bodies_from(
    dims: Seq<LoopDim>,
    arrays: Seq<ArrayDecl>,
    accesses: Seq<Access>,
    p: Seq<i64>, v: int)
    requires
        loops_wf(dims),
        fits_from(dims, arrays, accesses, p, v),
    ensures
        bodies_fit(arrays, accesses, points_from(dims, p, v)),
    decreases dims.len() - p.len(), 0nat, span(
            dims[p.len() as int],
            v,
            dims[p.len() as int].upper.value(p),
        ),
{
    if p.len() < dims.len() {
        let dim = dims[p.len() as int];
        if dim.step != 0 && dim.before(v, dim.upper.value(p)) {
            lemma_bodies_under(dims, arrays, accesses, p.push(v as i64));
            lemma_bodies_from(dims, arrays, accesses, p, v + dim.step);
        }
    }
}

proof fn lemma_fits_under_parts(
    dims: Seq<LoopDim>,
    arrays: Seq<ArrayDecl>,
    accesses: Seq<Access>,
    p: Seq<i64>)
    requires
        loops_wf(dims),
        visited(dims, p),
        bounds_fit(dims),
        bodies_fit(arrays, accesses, points_under(dims, p)),
    ensures
        fits_under(dims, arrays, accesses, p),
    decreases dims.len() - p.len(), 1nat, 0nat,
{
    if p.len() >= dims.len() {
        assert(points_under(dims, p)[0] == p);
    } else {
        assert(loop_value(dims[p.len() as int], p, 0) == dims[p.len() as int].lower.value(p)) by {
            assert(0 * dims[p.len() as int].step == 0);
        }
        lemma_fits_from_parts(dims, arrays, accesses, p, 0);
    }
}

#[verifier::rlimit(30)]
proof fn lemma_fits_from_parts(
    dims: Seq<LoopDim>,
    arrays: Seq<ArrayDecl>,
    accesses: Seq<Access>,
    p: Seq<i64>, k: nat)
    requires
        loops_wf(dims),
        visited(dims, p),
        p.len() < dims.len(),
        bounds_fit(dims),
        bodies_fit(
            arrays,
            accesses,
            points_from(dims, p, loop_value(dims[p.len() as int], p, k)),
        ),
    ensures
        fits_from(
            dims,
            arrays,
            accesses,
            p,
            loop_value(dims[p.len() as int], p, k),
        ),
    decreases dims.len() - p.len(), 0nat, span(
            dims[p.len() as int],
            loop_value(dims[p.len() as int], p, k),
            dims[p.len() as int].upper.value(p),
        ),
{
    let dim = dims[p.len() as int];
    let v = loop_value(dim, p, k);
    let upper = dim.upper.value(p);
    assert(dim.fits_depth(p.len()));
    if dim.before(v, upper) {
        assert(dim.lower.fits(p) && dim.upper.fits(p));
        assert(i64::MIN <= dim.lower.partial(p, 0));
        assert(i64::MIN <= dim.lower.value(p) <= i64::MAX);
        assert(i64::MIN <= upper <= i64::MAX);
        assert(i64::MIN <= v <= i64::MAX) by (nonlinear_arith)
            requires
                v == dim.lower.value(p) + k * dim.step,
                i64::MIN <= dim.lower.value(p) <= i64::MAX,
                i64::MIN <= upper <= i64::MAX,
                dim.step > 0 ==> v < upper,
                dim.step <= 0 ==> v > upper,
                k >= 0,
        ;
        let inner = points_under(dims, p.push(v as i64));
        let rest = points_from(dims, p, v + dim.step);
        assert(points_from(dims, p, v) == inner + rest);
        assert forall|i: int| 0 <= i < inner.len() implies body_fits(
            arrays,
            accesses,
            #[trigger] inner[i],
        ) by {
            assert((inner + rest)[i] == inner[i]);
        }
        assert forall|i: int| 0 <= i < rest.len() implies body_fits(
            arrays,
            accesses,
            #[trigger] rest[i],
        ) by {
            assert((inner + rest)[inner.len() + i] == rest[i]);
        }
        assert(on_loop(dim, p, v));
        lemma_visited_push(dims, p, v as i64);
        lemma_fits_under_parts(dims, arrays, accesses, p.push(v as i64));
        assert(loop_value(dim, p, k + 1) == v + dim.step) by (nonlinear_arith)
            requires
                v == dim.lower.value(p) + k * dim.step,
                loop_value(dim, p, k + 1) == dim.lower.value(p) + (k + 1) * dim.step,
        ;
        lemma_fits_from_parts(dims, arrays, accesses, p, k + 1);
    }
}

/// A walk fits as a whole exactly where it fits loop by loop.
pub proof fn lemma_fits_is_walk(dims: Seq<LoopDim>, arrays: Seq<ArrayDecl>, accesses: Seq<Access>)
    requires
        loops_wf(dims),
    ensures
        (bounds_fit(dims) && bodies_fit(arrays, accesses, points(dims))) == fits_under(
            dims,
            arrays,
            accesses,
            Seq::empty(),
        ),
{
    if fits_under(dims, arrays, accesses, Seq::empty()) {
        lemma_bodies_under(dims, arrays, accesses, Seq::empty());
        assert forall|p: Seq<i64>| #[trigger]
            visited(dims, p) && p.len() < dims.len() implies dims[p.len() as int].lower.fits(p)
            && dims[p.len() as int].upper.fits(p) by {
            lemma_fits_at(dims, arrays, accesses, p);
        }
    }
    if (bounds_fit(dims) && bodies_fit(arrays, accesses, points(dims))) {
        lemma_fits_under_parts(dims, arrays, accesses, Seq::empty());
    }
}

/// The walk of a nest fits as a whole exactly where it fits loop by loop.
pub proof fn lemma_walk_fits(nest: LoopNest)
    requires
        nest.wf(),
    ensures
        loops_wf(nest.dims()),
        walk_fits(nest) == fits_under(
            nest.dims(),
            nest.arrays(),
            nest.accesses(),
            Seq::empty(),
        ),
        bounds_fit(nest.dims()) == fits_under(
            nest.dims(),
            nest.arrays(),
            Seq::empty(),
            Seq::empty(),
        ),
{
    assert forall|d: int| 0 <= d < nest.dims().len() implies (#[trigger] nest.dims()[d]).fits_depth(
        d as nat,
    ) by {}
    lemma_fits_is_walk(nest.dims(), nest.arrays(), nest.accesses());
    lemma_fits_is_walk(nest.dims(), nest.arrays(), Seq::empty());
}

proof fn lemma_on_loop_in_range(dims: Seq<LoopDim>, p: Seq<i64>, k: nat)
    requires
        loops_wf(dims),
        bounds_fit(dims),
        visited(dims, p),
        p.len() < dims.len(),
        dims[p.len() as int].before(
            loop_value(dims[p.len() as int], p, k),
            dims[p.len() as int].upper.value(p),
        ),
    ensures
        i64::MIN <= loop_value(dims[p.len() as int], p, k) <= i64::MAX,
        visited(dims, p.push(loop_value(dims[p.len() as int], p, k) as i64)),
{
    let dim = dims[p.len() as int];
    let v = loop_value(dim, p, k);
    let upper = dim.upper.value(p);
    assert(dim.fits_depth(p.len()));
    assert(dim.lower.fits(p) && dim.upper.fits(p));
    assert(i64::MIN <= dim.lower.partial(p, dim.lower.terms@.len() as int) <= i64::MAX);
    assert(i64::MIN <= dim.upper.partial(p, dim.upper.terms@.len() as int) <= i64::MAX);
    assert(i64::MIN <= v <= i64::MAX) by (nonlinear_arith)
        requires
            v == dim.lower.value(p) + k * dim.step,
            i64::MIN <= dim.lower.value(p) <= i64::MAX,
            i64::MIN <= upper <= i64::MAX,
            dim.step > 0 ==> v < upper,
            dim.step <= 0 ==> v > upper,
            k >= 0,
    ;
    assert(on_loop(dim, p, v));
    lemma_visited_push(dims, p, v as i64);
}

proof fn lemma_visited_under(dims: Seq<LoopDim>, p: Seq<i64>)
    requires
        loops_wf(dims),
        bounds_fit(dims),
        visited(dims, p),
    ensures
        forall|i: int|
            0 <= i < points_under(dims, p).len() ==> visited(
                dims,
                #[trigger] points_under(dims, p)[i],
            ) && points_under(dims, p)[i].len() == dims.len(),
    decreases dims.len() - p.len(), 1nat, 0nat,
{
    if p.len() < dims.len() {
        assert(loop_value(dims[p.len() as int], p, 0) == dims[p.len() as int].lower.value(p)) by {
            assert(0 * dims[p.len() as int].step == 0);
        }
        lemma_visited_from(dims, p, 0);
        let lower = loop_value(dims[p.len() as int], p, 0);
        assert(points_under(dims, p) == points_from(dims, p, lower));
        assert forall|i: int| 0 <= i < points_under(dims, p).len() implies visited(
            dims,
            #[trigger] points_under(dims, p)[i],
        ) && points_under(dims, p)[i].len() == dims.len() by {
            let q = points_from(dims, p, lower)[i];
            assert(visited(dims, q));
        }
    } else {
        assert(points_under(dims, p) =~= seq![p]);
        assert forall|i: int| 0 <= i < points_under(dims, p).len() implies visited(
            dims,
            #[trigger] points_under(dims, p)[i],
        ) && points_under(dims, p)[i].len() == dims.len() by {
            assert(points_under(dims, p)[i] == p);
        }
    }
}

#[verifier::rlimit(30)]
proof fn lemma_visited_from(dims: Seq<LoopDim>, p: Seq<i64>, k: nat)
    requires
        loops_wf(dims),
        bounds_fit(dims),
        visited(dims, p),
        p.len() < dims.len(),
    ensures
        forall|i: int|
            0 <= i < points_from(dims, p, loop_value(dims[p.len() as int], p, k)).len() ==> visited(
                dims,
                #[trigger] points_from(dims, p, loop_value(dims[p.len() as int], p, k))[i],
            ) && points_from(dims, p, loop_value(dims[p.len() as int], p, k))[i].len()
                == dims.len(),
    decreases dims.len() - p.len(), 0nat, span(
            dims[p.len() as int],
            loop_value(dims[p.len() as int], p, k),
            dims[p.len() as int].upper.value(p),
        ),
{
    let dim = dims[p.len() as int];
    let v = loop_value(dim, p, k);
    assert(dim.fits_depth(p.len()));
    if dim.before(v, dim.upper.value(p)) {
        lemma_on_loop_in_range(dims, p, k);
        lemma_visited_under(dims, p.push(v as i64));
        assert(loop_value(dim, p, k + 1) == v + dim.step) by (nonlinear_arith)
            requires
                v == dim.lower.value(p) + k * dim.step,
                loop_value(dim, p, k + 1) == dim.lower.value(p) + (k + 1) * dim.step,
        ;
        lemma_visited_from(dims, p, k + 1);
        let inner = points_under(dims, p.push(v as i64));
        let rest = points_from(dims, p, v + dim.step);
        assert(points_from(dims, p, v) == inner + rest);
    }
}

/// Every iteration point holds one index per loop, each of them a value
/// that its loop takes under the indices before it.
pub proof fn lemma_points_visited(dims: Seq<LoopDim>)
    requires
        loops_wf(dims),
        bounds_fit(dims),
    ensures
        forall|i: int|
            0 <= i < points(dims).len() ==> visited(dims, #[trigger] points(dims)[i])
                && points(dims)[i].len() == dims.len(),
{
    lemma_visited_under(dims, Seq::empty());
}

/// The lines of two runs of points, one after the other.
pub proof fn lemma_lines_concat(
    arrays: Seq<ArrayDecl>,
    accesses: Seq<Access>,
    first: Seq<Seq<i64>>,
    second: Seq<Seq<i64>>,
    element_size: u64,
    cache_line_size: u64,
)
    ensures
        lines_of(arrays, accesses, first + second, element_size, cache_line_size) == lines_of(
            arrays,
            accesses,
            first,
            element_size,
            cache_line_size,
        ) + lines_of(arrays, accesses, second, element_size, cache_line_size),
    decreases second.len(),
{
    if second.len() == 0 {
        assert(first + second =~= first);
    } else {
        lemma_lines_concat(
            arrays,
            accesses,
            first,
            second.drop_last(),
            element_size,
            cache_line_size,
        );
        assert((first + second).drop_last() =~= first + second.drop_last());
        assert((first + second).last() == second.last());
    }
}

/// Each point contributes one line per access.
pub proof fn lemma_lines_count(
    arrays: Seq<ArrayDecl>,
    accesses: Seq<Access>,
    pts: Seq<Seq<i64>>,
    element_size: u64,
    cache_line_size: u64,
)
    ensures
        lines_of(arrays, accesses, pts, element_size, cache_line_size).len() == pts.len()
            * accesses.len(),
    decreases pts.len(),
{
    if pts.len() > 0 {
        lemma_lines_count(arrays, accesses, pts.drop_last(), element_size, cache_line_size);
        assert(pts.len() * accesses.len() == (pts.len() - 1) * accesses.len() + accesses.len())
            by (nonlinear_arith);
    }
}

/// Two expressions with the same constant and the same terms.
pub open spec fn same_affine(x: Affine, y: Affine) -> bool {
    x.constant == y.constant && x.terms@ == y.terms@
}

/// Two runs of loops with the same bounds and steps, whatever their names.
pub open spec fn same_loops(x: Seq<LoopDim>, y: Seq<LoopDim>) -> bool {
    &&& x.len() == y.len()
    &&& forall|d: int|
        0 <= d < x.len() ==> (#[trigger] x[d]).step == y[d].step && same_affine(
            x[d].lower,
            y[d].lower,
        ) && same_affine(x[d].upper, y[d].upper)
}

/// Two runs of arrays of the same sizes, whatever their names.
pub open spec fn same_arrays(x: Seq<ArrayDecl>, y: Seq<ArrayDecl>) -> bool {
    &&& x.len() == y.len()
    &&& forall|k: int| 0 <= k < x.len() ==> (#[trigger] x[k]).extent == y[k].extent
}

/// Two bodies whose accesses touch the same elements, in the same order.
pub open spec fn same_accesses(x: Seq<Access>, y: Seq<Access>) -> bool {
    &&& x.len() == y.len()
    &&& forall|a: int|
        0 <= a < x.len() ==> (#[trigger] x[a]).array == y[a].array && same_affine(
            x[a].index,
            y[a].index,
        )
}

/// Two nests that describe the same computation.
pub open spec fn same_shape(x: LoopNest, y: LoopNest) -> bool {
    &&& same_loops(x.dims(), y.dims())
    &&& same_arrays(x.arrays(), y.arrays())
    &&& same_accesses(x.accesses(), y.accesses())
}

proof fn lemma_same_partial(x: Affine, y: Affine, p: Seq<i64>, k: int)
    requires
        same_affine(x, y),
    ensures
        x.partial(p, k) == y.partial(p, k),
    decreases k,
{
    if k > 0 {
        lemma_same_partial(x, y, p, k - 1);
    }
}

/// Expressions with the same content have the same value everywhere.
pub proof fn lemma_same_affine(x: Affine, y: Affine, p: Seq<i64>)
    requires
        same_affine(x, y),
    ensures
        x.value(p) == y.value(p),
        x.fits(p) == y.fits(p),
{
    lemma_same_partial(x, y, p, x.terms@.len() as int);
    assert forall|k: int| x.partial(p, k) == y.partial(p, k) by {
        lemma_same_partial(x, y, p, k);
    }
}

proof fn lemma_same_base(
    x: Seq<ArrayDecl>,
    y: Seq<ArrayDecl>,
    k: int,
    element_size: u64,
    cache_line_size: u64,
)
    requires
        same_arrays(x, y),
        k <= x.len(),
    ensures
        array_line(x, k, element_size, cache_line_size) == array_line(
            y,
            k,
            element_size,
            cache_line_size,
        ),
        array_base(x, k, element_size, cache_line_size) == array_base(
            y,
            k,
            element_size,
            cache_line_size,
        ),
    decreases k,
{
    if k > 0 {
        lemma_same_base(x, y, k - 1, element_size, cache_line_size);
    }
}

proof fn lemma_same_body(
    rx: Seq<ArrayDecl>,
    ry: Seq<ArrayDecl>,
    x: Seq<Access>,
    y: Seq<Access>,
    p: Seq<i64>,
    element_size: u64,
    cache_line_size: u64,
)
    requires
        same_arrays(rx, ry),
        same_accesses(x, y),
        forall|a: int| 0 <= a < x.len() ==> (#[trigger] x[a]).array < rx.len(),
    ensures
        body_fits(rx, x, p) == body_fits(ry, y, p),
        body_lines(rx, x, p, element_size, cache_line_size) == body_lines(
            ry,
            y,
            p,
            element_size,
            cache_line_size,
        ),
{
    assert forall|a: int| 0 <= a < x.len() implies access_fits(rx, x[a], p) == access_fits(
        ry,
        y[a],
        p,
    ) && line_of(rx, x[a], p, element_size, cache_line_size) == line_of(
        ry,
        y[a],
        p,
        element_size,
        cache_line_size,
    ) by {
        lemma_same_affine(x[a].index, y[a].index, p);
        lemma_same_base(rx, ry, x[a].array as int, element_size, cache_line_size);
    }
    assert(body_lines(rx, x, p, element_size, cache_line_size) =~= body_lines(
        ry,
        y,
        p,
        element_size,
        cache_line_size,
    ));
}

proof fn lemma_same_lines(
    rx: Seq<ArrayDecl>,
    ry: Seq<ArrayDecl>,
    x: Seq<Access>,
    y: Seq<Access>,
    pts: Seq<Seq<i64>>,
    element_size: u64,
    cache_line_size: u64,
)
    requires
        same_arrays(rx, ry),
        same_accesses(x, y),
        forall|a: int| 0 <= a < x.len() ==> (#[trigger] x[a]).array < rx.len(),
    ensures
        lines_of(rx, x, pts, element_size, cache_line_size) == lines_of(
            ry,
            y,
            pts,
            element_size,
            cache_line_size,
        ),
    decreases pts.len(),
{
    if pts.len() > 0 {
        lemma_same_lines(rx, ry, x, y, pts.drop_last(), element_size, cache_line_size);
        lemma_same_body(rx, ry, x, y, pts.last(), element_size, cache_line_size);
    }
}

proof fn lemma_same_under(x: LoopNest, y: LoopNest, p: Seq<i64>)
    requires
        x.wf(),
        same_shape(x, y),
    ensures
        points_under(x.dims(), p) == points_under(y.dims(), p),
        fits_under(x.dims(), x.arrays(), x.accesses(), p) == fits_under(
            y.dims(),
            y.arrays(),
            y.accesses(),
            p,
        ),
    decreases x.dims().len() - p.len(), 1nat, 0nat,
{
    let dx = x.dims();
    let dy = y.dims();
    if p.len() >= dx.len() {
        lemma_same_body(x.arrays(), y.arrays(), x.accesses(), y.accesses(), p, 1, 1);
    } else {
        let d = p.len() as int;
        lemma_same_affine(dx[d].lower, dy[d].lower, p);
        lemma_same_affine(dx[d].upper, dy[d].upper, p);
        lemma_same_from(x, y, p, dx[d].lower.value(p));
    }
}

proof fn lemma_same_from(x: LoopNest, y: LoopNest, p: Seq<i64>, v: int)
    requires
        x.wf(),
        same_shape(x, y),
    ensures
        points_from(x.dims(), p, v) == points_from(y.dims(), p, v),
        fits_from(x.dims(), x.arrays(), x.accesses(), p, v) == fits_from(
            y.dims(),
            y.arrays(),
            y.accesses(),
            p,
            v,
        ),
    decreases x.dims().len() - p.len(), 0nat, span(
            x.dims()[p.len() as int],
            v,
            x.dims()[p.len() as int].upper.value(p),
        ),
{
    let dx = x.dims();
    if p.len() < dx.len() {
        let d = p.len() as int;
        lemma_same_affine(dx[d].upper, y.dims()[d].upper, p);
        if dx[d].step != 0 && dx[d].before(v, dx[d].upper.value(p)) {
            lemma_same_under(x, y, p.push(v as i64));
            lemma_same_from(x, y, p, v + dx[d].step);
        }
    }
}

/// Nests that describe the same computation touch the same lines in the
/// same order, and meet the same limits.
pub proof fn lemma_same_trace(x: LoopNest, y: LoopNest, element_size: u64, cache_line_size: u64)
    requires
        x.wf(),
        y.wf(),
        same_shape(x, y),
    ensures
        points(x.dims()) == points(y.dims()),
        walk_fits(x) == walk_fits(y),
        array_base(x.arrays(), x.arrays().len() as int, element_size, cache_line_size)
            == array_base(y.arrays(), y.arrays().len() as int, element_size, cache_line_size),
        line_trace(x, element_size, cache_line_size) == line_trace(
            y,
            element_size,
            cache_line_size,
        ),
{
    lemma_same_under(x, y, Seq::empty());
    lemma_walk_fits(x);
    lemma_walk_fits(y);
    lemma_same_base(
        x.arrays(),
        y.arrays(),
        x.arrays().len() as int,
        element_size,
        cache_line_size,
    );
    lemma_same_lines(
        x.arrays(),
        y.arrays(),
        x.accesses(),
        y.accesses(),
        points(x.dims()),
        element_size,
        cache_line_size,
    );
}

/// A copy of `point`.
pub fn copy_point(point: &Vec<i64>) -> (copy: Vec<i64>)
    ensures
        copy@ == point@,
{
    let mut copy: Vec<i64> = Vec::new();
    let mut i: usize = 0;
    while i < point.len()
        invariant
            i <= point@.len(),
            copy@ == point@.take(i as int),
        decreases point@.len() - i,
    {
        copy.push(point[i]);
        assert(point@.take(i + 1) =~= point@.take(i as int).push(point@[i as int]));
        i = i + 1;
    }
    assert(point@.take(point@.len() as int) =~= point@);
    copy
}

/// One access of the trace: the iteration point at which it is made, the
/// position of the access in the body, and the byte address it touches.
#[derive(Clone, Debug, PartialEq, Eq)]
pub struct TraceEvent {
    pub point: Vec<i64>,
    pub access: usize,
    pub address: u64,
}

/// The events of the body at the iteration point `point`, in textual order
/// of the accesses; `None` where one of the accesses cannot be made.
pub fn events_at(nest: &LoopNest, layout: &Layout, point: &Vec<i64>) -> (r: Option<Vec<TraceEvent>>)
    requires
        nest.wf(),
        layout.places(nest.arrays(), layout.element_size(), layout.cache_line_size()),
        point@.len() == nest.dims().len(),
    ensures
        r.is_some() <==> body_fits(nest.arrays(), nest.accesses(), point@),
        r matches Some(events) ==> {
            &&& events@.len() == nest.accesses().len()
            &&& forall|a: int|
                0 <= a < events@.len() ==> (#[trigger] events@[a]).point@ == point@
                    && events@[a].access == a && events@[a].address == address(
                    nest.arrays(),
                    nest.accesses()[a],
                    point@,
                    layout.element_size(),
                    layout.cache_line_size(),
                )
        },
{
    let n = nest.access_count();
    let mut events: Vec<TraceEvent> = Vec::new();
    let mut a: usize = 0;
    while a < n
        invariant
            a <= n,
            n == nest.accesses().len(),
            nest.wf(),
            layout.places(nest.arrays(), layout.element_size(), layout.cache_line_size()),
            point@.len() == nest.dims().len(),
            events@.len() == a,
            forall|j: int|
                0 <= j < a ==> access_fits(nest.arrays(), #[trigger] nest.accesses()[j], point@),
            forall|j: int|
                0 <= j < a ==> (#[trigger] events@[j]).point@ == point@ && events@[j].access == j
                    && events@[j].address == address(
                    nest.arrays(),
                    nest.accesses()[j],
                    point@,
                    layout.element_size(),
                    layout.cache_line_size(),
                ),
        decreases n - a,
    {
        match layout.byte_address(nest, nest.access(a), point) {
            None => {
                return None;
            },
            Some(at) => {
                events.push(TraceEvent { point: copy_point(point), access: a, address: at });
            },
        }
        a = a + 1;
    }
    Some(events)
}

/// Touches the lines of the body at the iteration point `point`, in
/// textual order of the accesses. Stops at the first access that cannot be
/// made, and then returns `false`.
pub fn touch_body(nest: &LoopNest, layout: &Layout, point: &Vec<i64>, analysis: &mut Analysis) -> (fit:
    bool)
    requires
        nest.wf(),
        layout.places(nest.arrays(), layout.element_size(), layout.cache_line_size()),
        point@.len() == nest.dims().len(),
        old(analysis).wf(),
    ensures
        final(analysis).wf(),
        fit == body_fits(nest.arrays(), nest.accesses(), point@),
        fit ==> final(analysis)@ == old(analysis)@ + body_lines(
            nest.arrays(),
            nest.accesses(),
            point@,
            layout.element_size(),
            layout.cache_line_size(),
        ),
{
    let ghost lines = body_lines(
        nest.arrays(),
        nest.accesses(),
        point@,
        layout.element_size(),
        layout.cache_line_size(),
    );
    let n = nest.access_count();
    let mut a: usize = 0;
    while a < n
        invariant
            a <= n,
            n == nest.accesses().len(),
            nest.wf(),
            layout.places(nest.arrays(), layout.element_size(), layout.cache_line_size()),
            point@.len() == nest.dims().len(),
            analysis.wf(),
            lines == body_lines(
                nest.arrays(),
                nest.accesses(),
                point@,
                layout.element_size(),
                layout.cache_line_size(),
            ),
            analysis@ == old(analysis)@ + lines.take(a as int),
            forall|j: int|
                0 <= j < a ==> access_fits(nest.arrays(), #[trigger] nest.accesses()[j], point@),
        decreases n - a,
    {
        let access = nest.access(a);
        match layout.byte_address(nest, access, point) {
            None => {
                return false;
            },
            Some(at) => {
                proof {
                    layout.lemma_places(nest.arrays());
                }
                let line = layout.line(at);
                analysis.touch(line);
                assert(lines.take(a + 1) =~= lines.take(a as int).push(lines[a as int]));
            },
        }
        a = a + 1;
    }
    assert(lines.take(n as int) =~= lines);
    true
}

/// One round of a loop: the lines of its points are those of the round,
/// then those of the rounds that follow.
proof fn lemma_walk_step(
    dims: Seq<LoopDim>,
    arrays: Seq<ArrayDecl>,
    accesses: Seq<Access>,
    p: Seq<i64>,
    v: i64,
    element_size: u64,
    cache_line_size: u64,
    sofar: Seq<u64>,
    now: Seq<u64>,
)
    requires
        p.len() < dims.len(),
        dims[p.len() as int].step != 0,
        dims[p.len() as int].before(v as int, dims[p.len() as int].upper.value(p)),
        fits_under(dims, arrays, accesses, p.push(v)),
        now == sofar + lines_of(
            arrays,
            accesses,
            points_under(dims, p.push(v)),
            element_size,
            cache_line_size,
        ),
    ensures
        fits_from(dims, arrays, accesses, p, v as int) == fits_from(
            dims,
            arrays,
            accesses,
            p,
            v + dims[p.len() as int].step,
        ),
        now + lines_of(
            arrays,
            accesses,
            points_from(dims, p, v + dims[p.len() as int].step),
            element_size,
            cache_line_size,
        ) == sofar + lines_of(
            arrays,
            accesses,
            points_from(dims, p, v as int),
            element_size,
            cache_line_size,
        ),
{
    let dim = dims[p.len() as int];
    let inner = points_under(dims, p.push(v));
    let rest = points_from(dims, p, v + dim.step);
    lemma_lines_concat(arrays, accesses, inner, rest, element_size, cache_line_size);
    assert(points_from(dims, p, v as int) == inner + rest);
    assert(now + lines_of(arrays, accesses, rest, element_size, cache_line_size) =~= sofar
        + lines_of(arrays, accesses, inner + rest, element_size, cache_line_size));
}

/// A loop that has run out has no points left.
proof fn lemma_walk_end(
    dims: Seq<LoopDim>,
    arrays: Seq<ArrayDecl>,
    accesses: Seq<Access>,
    p: Seq<i64>,
    next: int,
    element_size: u64,
    cache_line_size: u64,
)
    requires
        p.len() < dims.len(),
        !dims[p.len() as int].before(next, dims[p.len() as int].upper.value(p)),
    ensures
        fits_from(dims, arrays, accesses, p, next),
        points_from(dims, p, next) == Seq::<Seq<i64>>::empty(),
        lines_of(arrays, accesses, points_from(dims, p, next), element_size, cache_line_size)
            == Seq::<u64>::empty(),
{
    assert(points_from(dims, p, next) =~= Seq::<Seq<i64>>::empty());
    assert(lines_of(arrays, accesses, points_from(dims, p, next), element_size, cache_line_size)
        =~= Seq::<u64>::empty());
}

/// The accesses that a walk makes: those of the body where the arrays
/// are placed, none where only the loops are walked.
pub open spec fn touched(nest: LoopNest, layout: Option<&Layout>) -> Seq<Access> {
    if layout.is_some() {
        nest.accesses()
    } else {
        Seq::empty()
    }
}

/// The element size of the walk, where the arrays are placed.
pub open spec fn element_size_of(layout: Option<&Layout>) -> u64 {
    match layout {
        Some(l) => l.element_size(),
        None => 0,
    }
}

/// The cache line size of the walk, where the arrays are placed.
pub open spec fn cache_line_size_of(layout: Option<&Layout>) -> u64 {
    match layout {
        Some(l) => l.cache_line_size(),
        None => 0,
    }
}

/// Walks the part of the nest below the outer indices `point`, touching
/// the lines of each body in program order; with no layout, walks the
/// loops alone. Stops at the first bound that cannot be computed and at
/// the first access that cannot be made.
#[verifier::rlimit(30)]
pub(crate) fn walk_under(
    nest: &LoopNest,
    layout: Option<&Layout>,
    point: &mut Vec<i64>,
    analysis: &mut Analysis,
) -> (fit: bool)
    requires
        nest.wf(),
        layout matches Some(l) ==> l.places(nest.arrays(), l.element_size(), l.cache_line_size()),
        old(point)@.len() <= nest.dims().len(),
        old(analysis).wf(),
    ensures
        final(analysis).wf(),
        fit == fits_under(nest.dims(), nest.arrays(), touched(*nest, layout), old(point)@),
        fit ==> final(point)@ == old(point)@,
        fit ==> final(analysis)@ == old(analysis)@ + lines_of(
            nest.arrays(),
            touched(*nest, layout),
            points_under(nest.dims(), old(point)@),
            element_size_of(layout),
            cache_line_size_of(layout),
        ),
    decreases nest.dims().len() - old(point)@.len(),
{
    let ghost dims = nest.dims();
    let ghost arrays = nest.arrays();
    let ghost accesses = touched(*nest, layout);
    let ghost element_size = element_size_of(layout);
    let ghost cache_line_size = cache_line_size_of(layout);
    let ghost p = point@;
    let depth = point.len();
    if depth >= nest.depth() {
        let fit = match layout {
            Some(l) => touch_body(nest, l, point, analysis),
            None => true,
        };
        proof {
            let pts = points_under(dims, p);
            assert(pts.drop_last() =~= Seq::<Seq<i64>>::empty());
            assert(pts.last() == p);
            assert(lines_of(arrays, accesses, pts.drop_last(), element_size, cache_line_size)
                =~= Seq::<u64>::empty());
            assert(lines_of(arrays, accesses, pts, element_size, cache_line_size) =~= body_lines(
                arrays,
                accesses,
                p,
                element_size,
                cache_line_size,
            ));
            if layout.is_none() {
                assert(body_lines(arrays, accesses, p, element_size, cache_line_size)
                    =~= Seq::<u64>::empty());
                assert(analysis@ + Seq::<u64>::empty() =~= analysis@);
            }
        }
        return fit;
    }
    let dim = nest.dim(depth);
    assert(dim.fits_depth(depth as nat));
    let lower = match dim.lower.eval(point) {
        None => {
            return false;
        },
        Some(v) => v,
    };
    let upper = match dim.upper.eval(point) {
        None => {
            return false;
        },
        Some(v) => v,
    };
    let mut v: i64 = lower;
    let mut done = false;
    let ghost next: int = lower as int;
    while !done && ((dim.step > 0 && v < upper) || (dim.step < 0 && v > upper))
        invariant
            nest.wf(),
            layout matches Some(l) ==> l.places(
                nest.arrays(),
                l.element_size(),
                l.cache_line_size(),
            ),
            dims == nest.dims(),
            arrays == nest.arrays(),
            accesses == touched(*nest, layout),
            element_size == element_size_of(layout),
            cache_line_size == cache_line_size_of(layout),
            depth < dims.len(),
            p.len() == depth,
            *dim == dims[depth as int],
            dim.step != 0,
            upper == dim.upper.value(p),
            lower == dim.lower.value(p),
            p == old(point)@,
            point@ == p,
            analysis.wf(),
            !done ==> next == v,
            done ==> !dim.before(next, upper as int),
            fits_from(dims, arrays, accesses, p, lower as int) == fits_from(
                dims,
                arrays,
                accesses,
                p,
                next,
            ),
            analysis@ + lines_of(
                arrays,
                accesses,
                points_from(dims, p, next),
                element_size,
                cache_line_size,
            ) == old(analysis)@ + lines_of(
                arrays,
                accesses,
                points_from(dims, p, lower as int),
                element_size,
                cache_line_size,
            ),
        decreases span(*dim, next, upper as int),
    {
        let ghost sofar = analysis@;
        point.push(v);
        let fit = walk_under(nest, layout, point, analysis);
        if !fit {
            return false;
        }
        point.pop();
        proof {
            assert(point@ =~= p);
            lemma_walk_step(
                dims,
                arrays,
                accesses,
                p,
                v,
                element_size,
                cache_line_size,
                sofar,
                analysis@,
            );
            next = v + dim.step;
        }
        match v.checked_add(dim.step) {
            None => {
                done = true;
            },
            Some(n) => {
                v = n;
            },
        }
    }
    proof {
        lemma_walk_end(dims, arrays, accesses, p, next, element_size, cache_line_size);
    }
    true
}

/// Whether every loop bound that the walk of `nest` evaluates stays in
/// range: whether a cursor can walk the whole nest.
pub fn bounds_in_range(nest: &LoopNest) -> (ok: bool)
    requires
        nest.wf(),
    ensures
        ok == bounds_fit(nest.dims()),
{
    proof {
        lemma_walk_fits(*nest);
    }
    let mut analysis = Analysis::new();
    let mut point: Vec<i64> = Vec::new();
    walk_under(nest, None, &mut point, &mut analysis)
}

} // verus!
