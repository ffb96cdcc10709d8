//! Square arrays under counted loops: an access that selects its element
//! by loop indices, row by row, stays inside its array.

use crate::address::access_fits;
use crate::nest::{lemma_power_positive, power, square_fits, Access, ArrayDecl, LoopDim};
use crate::walker::{bounds_fit, loop_value, loops_wf, on_loop, visited};
use vstd::prelude::*;

verus! {

/// Every loop of `dims` runs from 0 to `trip_count` in steps of one.
pub open spec fn counted_loops(dims: Seq<LoopDim>, trip_count: int) -> bool {
    forall|d: int| 0 <= d < dims.len() ==> (#[trigger] dims[d]).counts(dims[d].name@, trip_count)
}

/// `access` selects its element by loop indices, as in an array of side
/// `side` stored row by row: the first index varies slowest.
pub open spec fn row_major(access: Access, side: int, depth: nat) -> bool {
    &&& access.index.constant == 0
    &&& forall|k: int|
        0 <= k < access.index.terms@.len() ==> (#[trigger] access.index.terms@[k]).coeff == power(
            side,
            (access.index.terms@.len() - 1 - k) as nat,
        ) && access.index.terms@[k].dim < depth
}

/// The number of elements of a square array of `rank` dimensions of side
/// `side`.
pub open spec fn square_extent(side: int, rank: nat) -> int {
    power(
        if side > 0 {
            side
        } else {
            0
        },
        rank,
    )
}

/// Counted loops can be walked: their bounds are constants.
pub proof fn lemma_counted_loops(dims: Seq<LoopDim>, trip_count: int)
    requires
        counted_loops(dims, trip_count),
    ensures
        loops_wf(dims),
        bounds_fit(dims),
{
    assert forall|d: int| 0 <= d < dims.len() implies (#[trigger] dims[d]).fits_depth(d as nat) by {
        assert(dims[d].counts(dims[d].name@, trip_count));
    }
    assert forall|p: Seq<i64>| #[trigger]
        visited(dims, p) && p.len() < dims.len() implies dims[p.len() as int].lower.fits(p)
        && dims[p.len() as int].upper.fits(p) by {
        assert(dims[p.len() as int].counts(dims[p.len() as int].name@, trip_count));
    }
}

/// Under counted loops every index lies between 0 and the trip count.
pub proof fn lemma_counted_indices(dims: Seq<LoopDim>, trip_count: int, p: Seq<i64>)
    requires
        counted_loops(dims, trip_count),
        visited(dims, p),
    ensures
        forall|d: int| 0 <= d < p.len() ==> 0 <= #[trigger] p[d] < trip_count,
{
    assert forall|d: int| 0 <= d < p.len() implies 0 <= #[trigger] p[d] < trip_count by {
        assert(dims[d].counts(dims[d].name@, trip_count));
        assert(on_loop(dims[d], p.take(d), p[d] as int));
        let k = choose|k: nat| #[trigger]
            loop_value(dims[d], p.take(d), k) == p[d] && dims[d].before(
                p[d] as int,
                dims[d].upper.value(p.take(d)),
            );
        assert(k * 1 == k);
    }
}

proof fn lemma_row_major_partial(access: Access, side: int, p: Seq<i64>, k: int)
    requires
        side >= 1,
        row_major(access, side, p.len()),
        forall|d: int| 0 <= d < p.len() ==> 0 <= #[trigger] p[d] < side,
        0 <= k <= access.index.terms@.len(),
    ensures
        0 <= access.index.partial(p, k) <= power(side, access.index.terms@.len()) - power(
            side,
            (access.index.terms@.len() - k) as nat,
        ),
    decreases k,
{
    let rank = access.index.terms@.len();
    if k > 0 {
        lemma_row_major_partial(access, side, p, k - 1);
        let term = access.index.terms@[k - 1];
        let x = p[term.dim as int];
        let c = power(side, (rank - k) as nat);
        lemma_power_positive(side, (rank - k) as nat);
        assert(term.coeff == c);
        assert(power(side, (rank - k + 1) as nat) == side * c);
        assert(0 <= c * x <= side * c - c) by (nonlinear_arith)
            requires
                c > 0,
                0 <= x < side,
        ;
    }
}

/// An access that selects its element row by row, by the indices of
/// counted loops, can be made at every point that the walk meets.
pub proof fn lemma_square_access_fits(
    dims: Seq<LoopDim>,
    arrays: Seq<ArrayDecl>,
    access: Access,
    side: int,
    p: Seq<i64>,
)
    requires
        counted_loops(dims, side),
        visited(dims, p),
        p.len() == dims.len(),
        row_major(access, side, dims.len()),
        access.array < arrays.len(),
        arrays[access.array as int].extent == square_extent(side, access.index.terms@.len()),
        square_fits(side, access.index.terms@.len()),
    ensures
        access_fits(arrays, access, p),
{
    let rank = access.index.terms@.len();
    lemma_counted_indices(dims, side, p);
    if rank == 0 {
        assert forall|k: int| 0 <= k <= rank implies i64::MIN <= #[trigger] access.index.partial(
            p,
            k,
        ) <= i64::MAX by {}
    } else {
        assert(access.index.terms@[0].dim < dims.len());
        assert(0 <= p[0] < side);
        lemma_power_positive(side, rank);
        assert forall|k: int| 0 <= k <= rank implies i64::MIN <= #[trigger] access.index.partial(
            p,
            k,
        ) <= i64::MAX by {
            lemma_row_major_partial(access, side, p, k);
            lemma_power_positive(side, (rank - k) as nat);
        }
        lemma_row_major_partial(access, side, p, rank as int);
    }
}

} // verus!
