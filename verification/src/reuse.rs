//! Reuse distance of a trace of cache lines, stated over the whole trace.
//!
//! The distance of an access is the number of distinct lines touched
//! strictly between it and the previous access to the same line; an access
//! to a line never touched before is cold.

use crate::fenwick::prefix_sum;
use crate::histogram::{cold_outcomes, lemma_tally_total, tally, Distance, HistModel};
use vstd::prelude::*;

verus! {

/// Position of the last access to `line` in `s`, or -1 if there is none.
pub open spec fn last_touch(s: Seq<u64>, line: u64) -> int
    decreases s.len(),
{
    if s.len() == 0 {
        -1
    } else if s.last() == line {
        s.len() - 1
    } else {
        last_touch(s.drop_last(), line)
    }
}

/// Number of distinct lines among the accesses `lo..hi` of `s`.
pub open spec fn distinct_between(s: Seq<u64>, lo: int, hi: int) -> nat {
    s.subrange(lo, hi).to_set().len()
}

/// The outcome of access `i` of the trace `s`.
pub open spec fn distance_at(s: Seq<u64>, i: int) -> Distance {
    let p = last_touch(s.take(i), s[i]);
    if p < 0 {
        Distance::Cold
    } else {
        Distance::Finite(distinct_between(s, p + 1, i) as usize)
    }
}

/// The outcomes of all accesses of `s`, in order.
pub open spec fn distances(s: Seq<u64>) -> Seq<Distance> {
    Seq::new(s.len(), |i: int| distance_at(s, i))
}

/// The reuse-distance histogram of the trace `s`.
pub open spec fn reuse_histogram(s: Seq<u64>) -> HistModel {
    tally(distances(s))
}

/// Whether access `j` is the most recent access to its line.
pub open spec fn is_latest(s: Seq<u64>, j: int) -> bool {
    forall|k: int| j < k < s.len() ==> s[k] != s[j]
}

/// One mark at each most recent access, none elsewhere.
pub open spec fn latest_marks(s: Seq<u64>) -> Seq<nat> {
    Seq::new(s.len(), |j: int| if is_latest(s, j) { 1nat } else { 0nat })
}

/// What `last_touch` finds: the last position holding `line`, if any.
pub proof fn lemma_last_touch(s: Seq<u64>, line: u64)
    ensures
        -1 <= last_touch(s, line) < s.len(),
        last_touch(s, line) >= 0 ==> s[last_touch(s, line)] == line,
        forall|k: int| last_touch(s, line) < k < s.len() ==> s[k] != line,
        last_touch(s, line) >= 0 <==> s.contains(line),
    decreases s.len(),
{
    if s.len() > 0 {
        let r = s.drop_last();
        lemma_last_touch(r, line);
        if s.last() == line {
            assert(s[s.len() - 1] == line);
        } else {
            assert forall|k: int| last_touch(s, line) < k < s.len() implies s[k] != line by {
                if k < r.len() {
                    assert(r[k] == s[k]);
                }
            }
            if last_touch(r, line) >= 0 {
                assert(s[last_touch(r, line)] == r[last_touch(r, line)]);
            }
            if s.contains(line) {
                let k = choose|k: int| 0 <= k < s.len() && s[k] == line;
                assert(r[k] == line);
            }
        }
    }
}

/// Earlier outcomes do not change when the trace grows.
pub proof fn lemma_distances_push(s: Seq<u64>, line: u64)
    ensures
        distances(s.push(line)) == distances(s).push(distance_at(s.push(line), s.len() as int)),
{
    let t = s.push(line);
    assert forall|i: int| 0 <= i < s.len() implies distance_at(t, i) == distance_at(s, i) by {
        assert(t.take(i) =~= s.take(i));
        let p = last_touch(s.take(i), s[i]);
        lemma_last_touch(s.take(i), s[i]);
        if p >= 0 {
            assert(t.subrange(p + 1, i) =~= s.subrange(p + 1, i));
        }
    }
    assert(distances(t) =~= distances(s).push(distance_at(t, s.len() as int)));
}

/// The outcome of a new access, from the trace before it.
pub proof fn lemma_distance_of_push(s: Seq<u64>, line: u64)
    ensures
        distance_at(s.push(line), s.len() as int) == if last_touch(s, line) < 0 {
            Distance::Cold
        } else {
            Distance::Finite(
                distinct_between(s, last_touch(s, line) + 1, s.len() as int) as usize,
            )
        },
{
    let t = s.push(line);
    assert(t.take(s.len() as int) =~= s);
    lemma_last_touch(s, line);
    let p = last_touch(s, line);
    if p >= 0 {
        assert(t.subrange(p + 1, s.len() as int) =~= s.subrange(p + 1, s.len() as int));
    }
}

/// The marks from `lo` on count the distinct lines accessed from `lo` on.
pub proof fn lemma_marks_count_distinct(s: Seq<u64>, lo: int)
    requires
        0 <= lo <= s.len(),
    ensures
        prefix_sum(latest_marks(s), s.len() as int) - prefix_sum(latest_marks(s), lo)
            == distinct_between(s, lo, s.len() as int),
        distinct_between(s, lo, s.len() as int) <= s.len() - lo,
    decreases s.len() - lo,
{
    let n = s.len() as int;
    let tail = s.subrange(lo, n);
    if lo == n {
        assert(tail.to_set() =~= Set::<u64>::empty());
    } else {
        lemma_marks_count_distinct(s, lo + 1);
        let rest = s.subrange(lo + 1, n);
        vstd::seq_lib::seq_to_set_is_finite(rest);
        assert(tail.to_set() =~= rest.to_set().insert(s[lo])) by {
            assert forall|v: u64| tail.to_set().contains(v) implies rest.to_set().insert(
                s[lo],
            ).contains(v) by {
                let k = choose|k: int| 0 <= k < tail.len() && tail[k] == v;
                if k > 0 {
                    assert(rest[k - 1] == v);
                }
            }
            assert forall|v: u64| rest.to_set().insert(s[lo]).contains(v) implies tail.to_set().contains(
                v,
            ) by {
                if v == s[lo] {
                    assert(tail[0] == v);
                } else {
                    let k = choose|k: int| 0 <= k < rest.len() && rest[k] == v;
                    assert(tail[k + 1] == v);
                }
            }
        }
        if is_latest(s, lo) {
            if rest.to_set().contains(s[lo]) {
                let k = choose|k: int| 0 <= k < rest.len() && rest[k] == s[lo];
                assert(s[lo + 1 + k] == s[lo]);
            }
        } else {
            let k = choose|k: int| lo < k < s.len() && s[k] == s[lo];
            assert(rest[k - lo - 1] == s[lo]);
        }
    }
}

/// How the marks move when the trace grows: the new access is marked, and
/// the previous access to the same line, if any, loses its mark.
pub proof fn lemma_marks_push(s: Seq<u64>, line: u64)
    ensures
        latest_marks(s.push(line)) == if last_touch(s, line) < 0 {
            latest_marks(s).push(1)
        } else {
            latest_marks(s).update(last_touch(s, line), 0).push(1)
        },
        last_touch(s, line) >= 0 ==> latest_marks(s)[last_touch(s, line)] == 1,
{
    let t = s.push(line);
    let p = last_touch(s, line);
    lemma_last_touch(s, line);
    let expected = if p < 0 {
        latest_marks(s).push(1)
    } else {
        latest_marks(s).update(p, 0).push(1)
    };
    assert forall|j: int| 0 <= j < t.len() implies latest_marks(t)[j] == expected[j] by {
        if j == s.len() {
            assert(is_latest(t, j));
        } else if s[j] == line {
            assert(t[s.len() as int] == t[j]);
            assert(!is_latest(t, j));
            if j != p {
                assert(j < p);
                assert(!is_latest(s, j));
            }
        } else {
            if is_latest(s, j) {
                assert forall|k: int| j < k < t.len() implies t[k] != t[j] by {
                    if k < s.len() {
                        assert(s[k] != s[j]);
                    }
                }
            } else {
                let k = choose|k: int| j < k < s.len() && s[k] == s[j];
                assert(t[k] == t[j]);
            }
        }
    }
    assert(latest_marks(t) =~= expected);
}

/// The cold accesses of a trace are as many as its distinct lines.
pub proof fn lemma_cold_counts_lines(s: Seq<u64>)
    ensures
        reuse_histogram(s).cold == s.to_set().len(),
    decreases s.len(),
{
    lemma_tally_total(distances(s));
    lemma_cold_outcomes(s);
}

proof fn lemma_cold_outcomes(s: Seq<u64>)
    ensures
        cold_outcomes(distances(s)) == s.to_set().len(),
    decreases s.len(),
{
    if s.len() == 0 {
        assert(s.to_set() =~= Set::<u64>::empty());
    } else {
        let r = s.drop_last();
        let line = s.last();
        assert(s =~= r.push(line));
        lemma_cold_outcomes(r);
        lemma_distances_push(r, line);
        lemma_distance_of_push(r, line);
        lemma_last_touch(r, line);
        vstd::seq_lib::seq_to_set_is_finite(r);
        assert(distances(s).drop_last() =~= distances(r));
        assert(s.to_set() =~= r.to_set().insert(line)) by {
            assert forall|v: u64| s.to_set().contains(v) implies r.to_set().insert(line).contains(
                v,
            ) by {
                let k = choose|k: int| 0 <= k < s.len() && s[k] == v;
                if k < r.len() {
                    assert(r[k] == v);
                }
            }
            assert forall|v: u64| r.to_set().insert(line).contains(v) implies s.to_set().contains(
                v,
            ) by {
                if v == line {
                    assert(s[s.len() - 1] == v);
                } else {
                    let k = choose|k: int| 0 <= k < r.len() && r[k] == v;
                    assert(s[k] == v);
                }
            }
        }
    }
}

/// Every access of a trace is counted once.
pub proof fn lemma_counts_every_access(s: Seq<u64>)
    ensures
        reuse_histogram(s).total() == s.len(),
        reuse_histogram(s).canonical(),
{
    lemma_tally_total(distances(s));
}

/// The histogram of a trace grows by the outcome of each new access.
pub proof fn lemma_histogram_push(s: Seq<u64>, line: u64)
    ensures
        reuse_histogram(s.push(line)) == reuse_histogram(s).record(
            distance_at(s.push(line), s.len() as int),
        ),
{
    lemma_distances_push(s, line);
    let ds = distances(s.push(line));
    assert(ds.drop_last() =~= distances(s));
}

} // verus!
