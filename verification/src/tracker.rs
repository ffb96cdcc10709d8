//! The reuse-distance tracker: consumes cache lines one at a time and
//! reports the outcome of each access.

use crate::fenwick::{lemma_prefix_monotone, Fenwick};
use crate::histogram::{Distance, Histogram};
use crate::reuse::{
    distance_at, last_touch, latest_marks, lemma_counts_every_access,
    lemma_distance_of_push, lemma_histogram_push, lemma_last_touch, lemma_marks_count_distinct,
    lemma_marks_push, reuse_histogram,
};
use std::collections::HashMap;
use vstd::prelude::*;

verus! {

broadcast use vstd::std_specs::hash::group_hash_axioms;

/// Tracks, per cache line, the position of its most recent access, and
/// over all positions, which of them still are a most recent access.
pub struct Tracker {
    last_seen: HashMap<u64, usize>,
    timeline: Fenwick,
    history: Ghost<Seq<u64>>,
}

impl View for Tracker {
    type V = Seq<u64>;

    /// The lines observed so far, in order.
    closed spec fn view(&self) -> Seq<u64> {
        self.history@
    }
}

impl Tracker {
    pub closed spec fn wf(&self) -> bool {
        &&& self.timeline.wf()
        &&& self.timeline@ == latest_marks(self.history@)
        &&& forall|line: u64| #[trigger]
            self.last_seen@.contains_key(line) <==> last_touch(self.history@, line) >= 0
        &&& forall|line: u64| #[trigger]
            self.last_seen@.contains_key(line) ==> self.last_seen@[line] == last_touch(
                self.history@,
                line,
            )
    }

    pub proof fn lemma_wf(&self)
        requires
            self.wf(),
        ensures
            self@.len() < usize::MAX,
    {
        self.timeline.lemma_wf();
    }

    pub fn new() -> (t: Tracker)
        ensures
            t.wf(),
            t@ == Seq::<u64>::empty(),
    {
        let t = Tracker {
            last_seen: HashMap::new(),
            timeline: Fenwick::new(),
            history: Ghost(Seq::empty()),
        };
        assert(latest_marks(t.history@) =~= t.timeline@);
        t
    }

    /// The number of accesses observed.
    pub fn len(&self) -> (n: usize)
        requires
            self.wf(),
        ensures
            n == self@.len(),
    {
        self.timeline.len()
    }

    /// The number of distinct lines observed.
    pub fn lines(&self) -> (n: usize)
        requires
            self.wf(),
        ensures
            n == self@.to_set().len(),
    {
        let t = self.timeline.len();
        let marked = self.timeline.prefix(t);
        proof {
            lemma_marks_count_distinct(self@, 0);
            assert(self@.subrange(0, self@.len() as int) =~= self@);
        }
        marked as usize
    }

    /// Observes one more access and reports its outcome.
    #[verifier::rlimit(30)]
    pub fn observe(&mut self, line: u64) -> (d: Distance)
        requires
            old(self).wf(),
        ensures
            final(self).wf(),
            final(self)@ == old(self)@.push(line),
            d == distance_at(final(self)@, old(self)@.len() as int),
    {
        let ghost s = self.history@;
        let t = self.timeline.len();
        proof {
            lemma_last_touch(s, line);
            lemma_distance_of_push(s, line);
            lemma_marks_push(s, line);
            lemma_marks_count_distinct(s, 0);
            assert(s.subrange(0, s.len() as int) =~= s);
            self.timeline.lemma_wf();
        }
        let previous = self.last_seen.get(&line);
        let d = match previous {
            None => Distance::Cold,
            Some(p) => {
                let p: usize = *p;
                proof {
                    lemma_marks_count_distinct(s, p + 1);
                    lemma_prefix_monotone(latest_marks(s), p as int, p + 1);
                    lemma_prefix_monotone(latest_marks(s), p + 1, s.len() as int);
                }
                let upto = self.timeline.prefix(t);
                let before = self.timeline.prefix(p + 1);
                self.timeline.decrease(p, 1);
                Distance::Finite((upto - before) as usize)
            },
        };
        proof {
            let marks = self.timeline@;
            lemma_marks_count_distinct(s.push(line), 0);
            crate::fenwick::lemma_prefix_push(marks, 1, marks.len() as int);
            assert(marks.push(1) == latest_marks(s.push(line)));
        }
        self.timeline.push(1);
        self.last_seen.insert(line, t);
        self.history = Ghost(s.push(line));
        proof {
            let after = s.push(line);
            assert forall|other: u64| #[trigger]
                self.last_seen@.contains_key(other) <==> last_touch(after, other) >= 0 by {
                assert(after.drop_last() =~= s);
            }
            assert forall|other: u64| #[trigger]
                self.last_seen@.contains_key(other) implies self.last_seen@[other] == last_touch(
                after,
                other,
            ) by {
                assert(after.drop_last() =~= s);
            }
        }
        d
    }
}

/// A tracker together with the histogram of the outcomes it has reported.
pub struct Analysis {
    tracker: Tracker,
    histogram: Histogram,
}

impl View for Analysis {
    type V = Seq<u64>;

    /// The lines touched so far, in order.
    closed spec fn view(&self) -> Seq<u64> {
        self.tracker@
    }
}

impl Analysis {
    pub closed spec fn wf(&self) -> bool {
        &&& self.tracker.wf()
        &&& self.histogram.wf()
        &&& self.histogram@ == reuse_histogram(self.tracker@)
    }

    pub fn new() -> (a: Analysis)
        ensures
            a.wf(),
            a@ == Seq::<u64>::empty(),
    {
        let a = Analysis { tracker: Tracker::new(), histogram: Histogram::new() };
        assert(crate::reuse::distances(a.tracker@) =~= Seq::<Distance>::empty());
        a
    }

    /// Touches one more line: reports the outcome and counts it.
    pub fn touch(&mut self, line: u64) -> (d: Distance)
        requires
            old(self).wf(),
        ensures
            final(self).wf(),
            final(self)@ == old(self)@.push(line),
            d == distance_at(final(self)@, old(self)@.len() as int),
    {
        let ghost s = self.tracker@;
        proof {
            self.tracker.lemma_wf();
            self.histogram.lemma_wf();
            lemma_counts_every_access(s);
            lemma_histogram_push(s, line);
            lemma_distance_of_push(s, line);
            lemma_last_touch(s, line);
            if last_touch(s, line) >= 0 {
                lemma_marks_count_distinct(s, last_touch(s, line) + 1);
            }
        }
        let d = self.tracker.observe(line);
        self.histogram.record(d);
        d
    }

    /// The number of lines touched.
    pub fn len(&self) -> (n: usize)
        requires
            self.wf(),
        ensures
            n == self@.len(),
    {
        self.tracker.len()
    }

    /// The histogram of the lines touched so far.
    pub fn histogram(&self) -> (h: &Histogram)
        requires
            self.wf(),
        ensures
            h.wf(),
            h@ == reuse_histogram(self@),
    {
        &self.histogram
    }

    /// Ends the analysis and hands out its histogram.
    pub fn finish(self) -> (h: Histogram)
        requires
            self.wf(),
        ensures
            h.wf(),
            h@ == reuse_histogram(self@),
    {
        self.histogram
    }
}

/// The reuse-distance histogram of a trace of cache lines.
pub fn histogram_of_lines(lines: &Vec<u64>) -> (h: Histogram)
    ensures
        h.wf(),
        h@ == reuse_histogram(lines@),
{
    let mut analysis = Analysis::new();
    let mut i: usize = 0;
    while i < lines.len()
        invariant
            i <= lines@.len(),
            analysis.wf(),
            analysis@ == lines@.take(i as int),
        decreases lines@.len() - i,
    {
        analysis.touch(lines[i]);
        assert(lines@.take(i + 1) =~= lines@.take(i as int).push(lines@[i as int]));
        i = i + 1;
    }
    assert(lines@.take(lines@.len() as int) =~= lines@);
    analysis.finish()
}

} // verus!
