//! The domain walker as a cursor: the iteration points of a nest handed
//! out one at a time, in program order.

use crate::nest::{LoopDim, LoopNest};
use crate::trace::TraceError;
use crate::walker::{
    bounds_fit, bounds_in_range, copy_point, lemma_visited_push, lemma_visited_take, loop_value, on_loop,
    points, points_from, points_under, span, visited,
};
use vstd::prelude::*;

verus! {

/// The iteration points that follow `q` among those that share its first
/// `d` indices.
pub open spec fn after(dims: Seq<LoopDim>, q: Seq<i64>, d: int) -> Seq<Seq<i64>>
    decreases dims.len() - d,
{
    if d < 0 || d >= dims.len() || d >= q.len() {
        Seq::empty()
    } else {
        after(dims, q, d + 1) + points_from(dims, q.take(d), q[d] + dims[d].step)
    }
}

/// The iteration points that follow all those that begin with `pre`.
pub open spec fn beyond(dims: Seq<LoopDim>, pre: Seq<i64>) -> Seq<Seq<i64>>
    decreases pre.len(),
{
    if pre.len() == 0 || pre.len() > dims.len() {
        Seq::empty()
    } else {
        points_from(dims, pre.drop_last(), pre.last() + dims[pre.len() - 1].step) + beyond(
            dims,
            pre.drop_last(),
        )
    }
}

/// What follows `q`: first what shares its first `d` indices, then the
/// rest.
proof fn lemma_after_split(dims: Seq<LoopDim>, q: Seq<i64>, d: int)
    requires
        0 <= d <= q.len() == dims.len(),
    ensures
        after(dims, q, 0) == after(dims, q, d) + beyond(dims, q.take(d)),
    decreases d,
{
    if d == 0 {
        assert(after(dims, q, 0) + beyond(dims, q.take(0)) =~= after(dims, q, 0));
    } else {
        lemma_after_split(dims, q, d - 1);
        let pre = q.take(d);
        assert(pre.drop_last() =~= q.take(d - 1));
        assert(pre.last() == q[d - 1]);
        let step = points_from(dims, q.take(d - 1), q[d - 1] + dims[d - 1].step);
        assert(after(dims, q, d - 1) == after(dims, q, d) + step);
        assert(beyond(dims, pre) == step + beyond(dims, q.take(d - 1)));
        assert((after(dims, q, d) + step) + beyond(dims, q.take(d - 1)) =~= after(dims, q, d) + (
        step + beyond(dims, q.take(d - 1))));
    }
}

/// Extends the outer indices in `point` to the first iteration point that
/// begins with them, if there is one.
#[verifier::rlimit(30)]
fn descend(nest: &LoopNest, point: &mut Vec<i64>) -> (r: Option<bool>)
    requires
        nest.wf(),
        visited(nest.dims(), old(point)@),
    ensures
        match r {
            Some(true) => {
                &&& final(point)@.len() == nest.dims().len()
                &&& final(point)@.take(old(point)@.len() as int) == old(point)@
                &&& visited(nest.dims(), final(point)@)
                &&& points_under(nest.dims(), old(point)@) == seq![final(point)@] + after(
                    nest.dims(),
                    final(point)@,
                    old(point)@.len() as int,
                )
            },
            Some(false) => final(point)@ == old(point)@ && points_under(nest.dims(), old(point)@)
                == Seq::<Seq<i64>>::empty(),
            None => !bounds_fit(nest.dims()),
        },
    decreases nest.dims().len() - old(point)@.len(), 1nat,
{
    let ghost p = point@;
    let depth = point.len();
    if depth >= nest.depth() {
        assert(p.take(p.len() as int) =~= p);
        assert(seq![p] + after(nest.dims(), p, p.len() as int) =~= seq![p]);
        return Some(true);
    }
    let dim = nest.dim(depth);
    assert(dim.fits_depth(depth as nat));
    let lower = match dim.lower.eval(point) {
        None => {
            return None;
        },
        Some(v) => v,
    };
    let upper = match dim.upper.eval(point) {
        None => {
            return None;
        },
        Some(v) => v,
    };
    assert(loop_value(*dim, p, 0) == lower) by {
        assert(0 * dim.step == 0);
    }
    seek(nest, point, lower, upper, Ghost(0))
}

/// Extends the outer indices in `point` to the first iteration point that
/// begins with them and whose next index is `start` or comes after it.
#[verifier::rlimit(30)]
fn seek(nest: &LoopNest, point: &mut Vec<i64>, start: i64, upper: i64, Ghost(round): Ghost<nat>) -> (r:
    Option<bool>)
    requires
        nest.wf(),
        visited(nest.dims(), old(point)@),
        old(point)@.len() < nest.dims().len(),
        upper == nest.dims()[old(point)@.len() as int].upper.value(old(point)@),
        start == loop_value(nest.dims()[old(point)@.len() as int], old(point)@, round),
    ensures
        match r {
            Some(true) => {
                &&& final(point)@.len() == nest.dims().len()
                &&& final(point)@.take(old(point)@.len() as int) == old(point)@
                &&& visited(nest.dims(), final(point)@)
                &&& points_from(nest.dims(), old(point)@, start as int) == seq![final(point)@]
                    + after(nest.dims(), final(point)@, old(point)@.len() as int)
            },
            Some(false) => final(point)@ == old(point)@ && points_from(
                nest.dims(),
                old(point)@,
                start as int,
            ) == Seq::<Seq<i64>>::empty(),
            None => !bounds_fit(nest.dims()),
        },
    decreases nest.dims().len() - old(point)@.len(), 0nat,
{
    let ghost dims = nest.dims();
    let ghost p = point@;
    let depth = point.len();
    let dim = nest.dim(depth);
    assert(dim.fits_depth(depth as nat));
    let mut v: i64 = start;
    let mut done = false;
    let ghost next: int = start as int;
    let ghost k: nat = round;
    while !done && ((dim.step > 0 && v < upper) || (dim.step < 0 && v > upper))
        invariant
            nest.wf(),
            dims == nest.dims(),
            depth < dims.len(),
            p == old(point)@,
            p.len() == depth,
            visited(dims, p),
            *dim == dims[depth as int],
            dim.step != 0,
            upper == dim.upper.value(p),
            point@ == p,
            !done ==> next == v,
            !done ==> next == loop_value(*dim, p, k),
            done ==> !dim.before(next, upper as int),
            points_from(dims, p, start as int) == points_from(dims, p, next),
        decreases span(*dim, next, upper as int),
    {
        proof {
            assert(on_loop(*dim, p, v as int));
            lemma_visited_push(dims, p, v);
        }
        point.push(v);
        match descend(nest, point) {
            None => {
                return None;
            },
            Some(true) => {
                proof {
                    let found = point@;
                    assert(found.take(depth as int) =~= found.take(depth + 1).take(depth as int));
                    assert(found.take(depth as int) =~= p);
                    assert(found[depth as int] == found.take(depth + 1)[depth as int]);
                    assert(points_from(dims, p, next) =~= seq![found] + after(
                        dims,
                        found,
                        depth as int,
                    ));
                }
                return Some(true);
            },
            Some(false) => {
                point.pop();
            },
        }
        proof {
            assert(point@ =~= p);
            assert(points_from(dims, p, next) =~= points_from(dims, p, v + dim.step));
            assert(loop_value(*dim, p, k + 1) == v + dim.step) by (nonlinear_arith)
                requires
                    v == dim.lower.value(p) + k * dim.step,
                    loop_value(*dim, p, k + 1) == dim.lower.value(p) + (k + 1) * dim.step,
            ;
            next = v + dim.step;
            k = k + 1;
        }
        match v.checked_add(dim.step) {
            None => {
                done = true;
            },
            Some(n) => {
                v = n;
            },
        }
    }
    proof {
        assert(!dim.before(next, upper as int));
    }
    Some(false)
}

/// A cursor over the iteration points of a nest.
pub struct Walker {
    point: Vec<i64>,
    fresh: bool,
    finished: bool,
    emitted: Ghost<Seq<Seq<i64>>>,
}

impl View for Walker {
    type V = Seq<Seq<i64>>;

    /// The iteration points handed out so far, in order.
    closed spec fn view(&self) -> Seq<Seq<i64>> {
        self.emitted@
    }
}

impl Walker {
    /// The cursor walks `nest`: what it has handed out are the first
    /// iteration points of the nest.
    pub closed spec fn wf(&self, nest: &LoopNest) -> bool {
        let dims = nest.dims();
        if self.fresh {
            !self.finished && self.emitted@.len() == 0 && self.point@.len() == 0
        } else if self.finished {
            self.emitted@ == points(dims)
        } else {
            &&& self.point@.len() == dims.len()
            &&& visited(dims, self.point@)
            &&& self.emitted@.len() > 0
            &&& self.emitted@.last() == self.point@
            &&& points(dims) == self.emitted@ + after(dims, self.point@, 0)
        }
    }

    /// The indices that the cursor holds.
    pub closed spec fn current(&self) -> Seq<i64> {
        self.point@
    }

    /// What was handed out is the beginning of the walk.
    pub proof fn lemma_wf(&self, nest: &LoopNest)
        requires
            self.wf(nest),
        ensures
            self@.len() <= points(nest.dims()).len(),
            self@ == points(nest.dims()).take(self@.len() as int),
    {
        let pts = points(nest.dims());
        if self.fresh {
            assert(self@ =~= pts.take(0));
        } else if self.finished {
            assert(pts.take(pts.len() as int) =~= pts);
        } else {
            assert(self@ =~= pts.take(self@.len() as int));
        }
    }

    /// A cursor before the first iteration point of `nest`.
    pub fn new(nest: &LoopNest) -> (w: Walker)
        ensures
            w.wf(nest),
            w@ == Seq::<Seq<i64>>::empty(),
    {
        Walker { point: Vec::new(), fresh: true, finished: false, emitted: Ghost(Seq::empty()) }
    }

    /// The iteration point that the last successful `advance` moved to.
    pub fn point(&self) -> (p: &Vec<i64>)
        ensures
            p@ == self.current(),
    {
        &self.point
    }

    /// Moves to the next iteration point. Returns `Ok(false)` when the walk
    /// is over, and an error where a loop bound cannot be computed.
    #[verifier::rlimit(30)]
    pub fn advance(&mut self, nest: &LoopNest) -> (r: Result<bool, TraceError>)
        requires
            nest.wf(),
            old(self).wf(nest),
        ensures
            bounds_fit(nest.dims()) ==> r.is_ok(),
            match r {
                Ok(true) => final(self).wf(nest) && final(self)@ == old(self)@.push(
                    final(self).current(),
                ) && old(self)@.len() < points(nest.dims()).len() && final(self).current()
                    == points(nest.dims())[old(self)@.len() as int],
                Ok(false) => final(self).wf(nest) && final(self)@ == old(self)@ && old(self)@
                    == points(nest.dims()),
                Err(e) => e == TraceError::OutOfRange && !bounds_fit(nest.dims()),
            },
    {
        let ghost dims = nest.dims();
        let ghost done = self.emitted@;
        if self.finished {
            return Ok(false);
        }
        if self.fresh {
            self.fresh = false;
            assert(self.point@ =~= Seq::<i64>::empty());
            assert(visited(dims, self.point@));
            match descend(nest, &mut self.point) {
                None => {
                    return Err(TraceError::OutOfRange);
                },
                Some(false) => {
                    self.finished = true;
                    assert(done =~= points(dims));
                    return Ok(false);
                },
                Some(true) => {
                    self.emitted = Ghost(done.push(self.point@));
                    assert(points(dims) =~= self.emitted@ + after(dims, self.point@, 0));
                    assert(points(dims)[0] == self.point@);
                    return Ok(true);
                },
            }
        }
        let ghost q = self.point@;
        let n = nest.depth();
        let mut d: usize = n;
        proof {
            lemma_after_split(dims, q, n as int);
            assert(q.take(n as int) =~= q);
            assert(after(dims, q, 0) =~= beyond(dims, q));
        }
        while d > 0
            invariant
                nest.wf(),
                dims == nest.dims(),
                n == dims.len(),
                d <= n,
                q.len() == n,
                visited(dims, q),
                self.point@ == q.take(d as int),
                self.emitted@ == done,
                done == old(self)@,
                !self.fresh,
                !self.finished,
                points(dims) == done + after(dims, q, 0),
                after(dims, q, 0) == beyond(dims, q.take(d as int)),
            decreases d,
        {
            let ghost pre = q.take(d as int);
            d = d - 1;
            let held = match self.point.pop() {
                Some(v) => v,
                None => unreached(),
            };
            let dim = nest.dim(d);
            proof {
                assert(self.point@ =~= q.take(d as int));
                assert(pre.drop_last() =~= q.take(d as int));
                assert(pre.last() == q[d as int]);
                assert(held == q[d as int]);
                lemma_visited_take(dims, q, d as int);
                assert(dim.fits_depth(d as nat));
            }
            let upper = match dim.upper.eval(&self.point) {
                None => {
                    return Err(TraceError::OutOfRange);
                },
                Some(u) => u,
            };
            let ghost round: nat = choose|k: nat| #[trigger]
                loop_value(*dim, q.take(d as int), k) == held;
            match held.checked_add(dim.step) {
                None => {
                    assert(points_from(dims, q.take(d as int), held + dim.step) =~= Seq::<
                        Seq<i64>,
                    >::empty());
                },
                Some(start) => {
                    proof {
                        assert(on_loop(dims[d as int], q.take(d as int), q[d as int] as int));
                        assert(loop_value(*dim, q.take(d as int), round + 1) == start)
                            by (nonlinear_arith)
                            requires
                                held == dim.lower.value(q.take(d as int)) + round * dim.step,
                                start == held + dim.step,
                                loop_value(*dim, q.take(d as int), round + 1) == dim.lower.value(
                                    q.take(d as int),
                                ) + (round + 1) * dim.step,
                        ;
                    }
                    match seek(nest, &mut self.point, start, upper, Ghost(round + 1)) {
                        None => {
                            return Err(TraceError::OutOfRange);
                        },
                        Some(true) => {
                            proof {
                                let found = self.point@;
                                lemma_after_split(dims, found, d as int);
                                assert(found.take(d as int) == q.take(d as int));
                                let rest = beyond(dims, q.take(d as int));
                                assert(after(dims, q, 0) == (seq![found] + after(
                                    dims,
                                    found,
                                    d as int,
                                )) + rest);
                                assert(done + ((seq![found] + after(dims, found, d as int)) + rest)
                                    =~= done.push(found) + (after(dims, found, d as int) + rest));
                                assert(points(dims) == done.push(found) + after(dims, found, 0));
                                assert(points(dims)[done.len() as int] == found);
                            }
                            self.emitted = Ghost(done.push(self.point@));
                            return Ok(true);
                        },
                        Some(false) => {},
                    }
                },
            }
            proof {
                assert(beyond(dims, pre) =~= beyond(dims, q.take(d as int)));
            }
        }
        proof {
            assert(q.take(0) =~= Seq::<i64>::empty());
            assert(done + after(dims, q, 0) =~= done);
        }
        self.finished = true;
        Ok(false)
    }
}

/// The iteration points of `nest`, in program order, all at once.
pub fn collect_points(nest: &LoopNest) -> (r: Result<Vec<Vec<i64>>, TraceError>)
    requires
        nest.wf(),
    ensures
        match r {
            Ok(pts) => bounds_fit(nest.dims()) && pts@.len() == points(nest.dims()).len()
                && forall|i: int|
                0 <= i < pts@.len() ==> (#[trigger] pts@[i])@ == points(nest.dims())[i],
            Err(e) => e == TraceError::OutOfRange && !bounds_fit(nest.dims()),
        },
{
    if !bounds_in_range(nest) {
        return Err(TraceError::OutOfRange);
    }
    let mut walker = Walker::new(nest);
    let mut pts: Vec<Vec<i64>> = Vec::new();
    loop
        invariant
            nest.wf(),
            bounds_fit(nest.dims()),
            walker.wf(nest),
            pts@.len() == walker@.len(),
            walker@.len() <= points(nest.dims()).len(),
            forall|i: int| 0 <= i < pts@.len() ==> (#[trigger] pts@[i])@ == points(nest.dims())[i],
        decreases points(nest.dims()).len() - walker@.len(),
    {
        match walker.advance(nest) {
            Err(_) => {
                return unreached();
            },
            Ok(false) => {
                return Ok(pts);
            },
            Ok(true) => {
                pts.push(copy_point(walker.point()));
            },
        }
    }
}

} // verus!
