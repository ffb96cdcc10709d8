//! Tracing a nest: from the loops and their accesses to the histogram of
//! reuse distances.

use crate::address::{arrays_fit, Layout};
use crate::histogram::{
    lemma_hits_monotone, lemma_tally_hits, outcomes_below, HistModel, Histogram,
};
use crate::nest::LoopNest;
use crate::reuse::{
    distances, lemma_cold_counts_lines, lemma_counts_every_access, reuse_histogram,
};
use crate::tracker::Analysis;
use crate::walker::{
    lemma_lines_count, lemma_same_trace, lemma_walk_fits, line_trace, points, same_shape,
    walk_fits, walk_under,
};
use vstd::prelude::*;

verus! {

/// Why a nest could not be traced.
#[derive(Clone, Copy, Debug, PartialEq, Eq, Structural)]
pub enum TraceError {
    /// The element size is zero.
    ZeroElementSize,
    /// The cache line size is zero.
    ZeroCacheLineSize,
    /// The arrays do not fit the address space, a loop bound leaves the
    /// range of its type, or an access falls outside its array.
    OutOfRange,
}

/// Why the nest cannot be traced with these sizes, if it cannot.
pub open spec fn trace_error(nest: LoopNest, element_size: usize, cache_line_size: usize) -> Option<
    TraceError,
> {
    if element_size == 0 {
        Some(TraceError::ZeroElementSize)
    } else if cache_line_size == 0 {
        Some(TraceError::ZeroCacheLineSize)
    } else if !arrays_fit(nest.arrays(), element_size as u64, cache_line_size as u64) || !walk_fits(
        nest,
    ) {
        Some(TraceError::OutOfRange)
    } else {
        None
    }
}

/// The histogram that tracing the nest yields.
pub open spec fn traced(nest: LoopNest, element_size: usize, cache_line_size: usize) -> HistModel {
    reuse_histogram(line_trace(nest, element_size as u64, cache_line_size as u64))
}

/// What the histogram of a traced nest counts: one access per iteration
/// point and reference, of which as many are cold as there are distinct
/// cache lines; the hits of a cache are the accesses at a distance below
/// its capacity, and a cache with more lines never has fewer of them.
pub proof fn lemma_traced_counts(nest: LoopNest, element_size: usize, cache_line_size: usize)
    ensures
        traced(nest, element_size, cache_line_size).total() == points(nest.dims()).len()
            * nest.accesses().len(),
        traced(nest, element_size, cache_line_size).cold == line_trace(
            nest,
            element_size as u64,
            cache_line_size as u64,
        ).to_set().len(),
        traced(nest, element_size, cache_line_size).canonical(),
        forall|capacity: nat| #[trigger]
            traced(nest, element_size, cache_line_size).hits_below(capacity) == outcomes_below(
                distances(line_trace(nest, element_size as u64, cache_line_size as u64)),
                capacity,
            ),
        forall|smaller: nat, larger: nat|
            smaller <= larger ==> #[trigger] traced(
                nest,
                element_size,
                cache_line_size,
            ).hits_below(smaller) <= #[trigger] traced(
                nest,
                element_size,
                cache_line_size,
            ).hits_below(larger),
{
    let lines = line_trace(nest, element_size as u64, cache_line_size as u64);
    lemma_counts_every_access(lines);
    lemma_cold_counts_lines(lines);
    lemma_lines_count(
        nest.arrays(),
        nest.accesses(),
        points(nest.dims()),
        element_size as u64,
        cache_line_size as u64,
    );
    let h = traced(nest, element_size, cache_line_size);
    assert forall|capacity: nat| #[trigger]
        h.hits_below(capacity) == outcomes_below(distances(lines), capacity) by {
        lemma_tally_hits(distances(lines), capacity);
    }
    assert forall|smaller: nat, larger: nat| smaller <= larger implies #[trigger] h.hits_below(
        smaller,
    ) <= #[trigger] h.hits_below(larger) by {
        lemma_hits_monotone(h, smaller, larger);
    }
}

/// Tracing is deterministic: two runs over nests that describe the same
/// computation, with the same sizes, fail alike or store the same
/// histogram.
pub proof fn lemma_trace_deterministic(
    x: LoopNest,
    y: LoopNest,
    element_size: usize,
    cache_line_size: usize,
    hx: Histogram,
    hy: Histogram,
)
    requires
        x.wf(),
        y.wf(),
        same_shape(x, y),
        hx@ == traced(x, element_size, cache_line_size),
        hy@ == traced(y, element_size, cache_line_size),
    ensures
        trace_error(x, element_size, cache_line_size) == trace_error(
            y,
            element_size,
            cache_line_size,
        ),
        hx.stored() == hy.stored(),
{
    lemma_same_trace(x, y, element_size as u64, cache_line_size as u64);
    hx.lemma_content_fixes_stored(&hy);
}

/// Walks the nest in program order and returns the histogram of the reuse
/// distances of its accesses, for elements of `element_size` bytes and
/// cache lines of `cache_line_size` bytes.
pub fn trace_histogram(nest: &LoopNest, element_size: usize, cache_line_size: usize) -> (r: Result<
    Histogram,
    TraceError,
>)
    requires
        nest.wf(),
    ensures
        match r {
            Ok(h) => trace_error(*nest, element_size, cache_line_size).is_none() && h.wf() && h@
                == traced(*nest, element_size, cache_line_size),
            Err(e) => trace_error(*nest, element_size, cache_line_size) == Some(e),
        },
{
    if element_size == 0 {
        return Err(TraceError::ZeroElementSize);
    }
    if cache_line_size == 0 {
        return Err(TraceError::ZeroCacheLineSize);
    }
    let layout = match Layout::place(nest, element_size as u64, cache_line_size as u64) {
        None => {
            return Err(TraceError::OutOfRange);
        },
        Some(layout) => layout,
    };
    proof {
        lemma_walk_fits(*nest);
    }
    let mut analysis = Analysis::new();
    let mut point: Vec<i64> = Vec::new();
    let fit = walk_under(nest, Some(&layout), &mut point, &mut analysis);
    if !fit {
        return Err(TraceError::OutOfRange);
    }
    assert(analysis@ =~= line_trace(*nest, element_size as u64, cache_line_size as u64));
    Ok(analysis.finish())
}

} // verus!
