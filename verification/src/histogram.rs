//! Histograms of reuse distances.
//!
//! A histogram counts accesses per distance bucket, with one extra bucket for
//! cold accesses (lines never touched before).

use vstd::prelude::*;

verus! {

/// The outcome of one access: either the line was never touched before, or
/// the number of distinct other lines touched since its previous access.
#[derive(Clone, Copy, Debug, PartialEq, Eq, Structural)]
pub enum Distance {
    Cold,
    Finite(usize),
}

/// The mathematical content of a histogram: the cold count and, by index,
/// the count of each finite distance.
pub struct HistModel {
    pub cold: nat,
    pub finite: Seq<nat>,
}

impl HistModel {
    pub open spec fn empty() -> HistModel {
        HistModel { cold: 0, finite: Seq::empty() }
    }

    /// Count of the finite bucket `k`; buckets never recorded count zero.
    pub open spec fn at(self, k: int) -> nat {
        if 0 <= k < self.finite.len() {
            self.finite[k]
        } else {
            0
        }
    }

    pub open spec fn count(self, d: Distance) -> nat {
        match d {
            Distance::Cold => self.cold,
            Distance::Finite(k) => self.at(k as int),
        }
    }

    /// Number of accesses whose distance is finite and below `capacity`:
    /// the hits of a fully associative LRU cache holding `capacity` lines.
    pub open spec fn hits_below(self, capacity: nat) -> nat
        decreases capacity,
    {
        if capacity == 0 {
            0
        } else {
            self.hits_below((capacity - 1) as nat) + self.at(capacity - 1)
        }
    }

    /// Number of accesses recorded, cold ones included.
    pub open spec fn total(self) -> nat {
        self.cold + self.hits_below(self.finite.len())
    }

    /// No trailing empty bucket: equal contents have equal representations.
    pub open spec fn canonical(self) -> bool {
        self.finite.len() > 0 ==> self.finite.last() > 0
    }

    /// The histogram after one more access at distance `d`.
    pub open spec fn record(self, d: Distance) -> HistModel {
        match d {
            Distance::Cold => HistModel { cold: self.cold + 1, finite: self.finite },
            Distance::Finite(k) => HistModel {
                cold: self.cold,
                finite: Seq::new(
                    if k < self.finite.len() { self.finite.len() } else { (k + 1) as nat },
                    |i: int| if i == k { self.at(i) + 1 } else { self.at(i) },
                ),
            },
        }
    }

    /// Bucket-wise sum of two histograms.
    pub open spec fn merge(self, other: HistModel) -> HistModel {
        HistModel {
            cold: self.cold + other.cold,
            finite: Seq::new(
                if self.finite.len() >= other.finite.len() {
                    self.finite.len()
                } else {
                    other.finite.len()
                },
                |i: int| self.at(i) + other.at(i),
            ),
        }
    }
}

/// The histogram of a sequence of access outcomes, folded in order.
pub open spec fn tally(ds: Seq<Distance>) -> HistModel
    decreases ds.len(),
{
    if ds.len() == 0 {
        HistModel::empty()
    } else {
        tally(ds.drop_last()).record(ds.last())
    }
}

/// Number of cold outcomes among `ds`.
pub open spec fn cold_outcomes(ds: Seq<Distance>) -> nat
    decreases ds.len(),
{
    if ds.len() == 0 {
        0
    } else {
        cold_outcomes(ds.drop_last()) + if ds.last() == Distance::Cold { 1nat } else { 0nat }
    }
}

/// Number of outcomes among `ds` with a finite distance below `capacity`.
pub open spec fn outcomes_below(ds: Seq<Distance>, capacity: nat) -> nat
    decreases ds.len(),
{
    if ds.len() == 0 {
        0
    } else {
        outcomes_below(ds.drop_last(), capacity) + match ds.last() {
            Distance::Cold => 0nat,
            Distance::Finite(k) => if k < capacity {
                1nat
            } else {
                0nat
            },
        }
    }
}

/// Buckets past the last stored one contribute nothing.
pub proof fn lemma_hits_saturate(h: HistModel, capacity: nat)
    requires
        capacity >= h.finite.len(),
    ensures
        h.hits_below(capacity) == h.hits_below(h.finite.len()),
    decreases capacity,
{
    if capacity > h.finite.len() {
        lemma_hits_saturate(h, (capacity - 1) as nat);
    }
}

/// A cache never gets fewer hits by growing: the number of accesses with a
/// distance below the capacity is non-decreasing in the capacity.
pub proof fn lemma_hits_monotone(h: HistModel, smaller: nat, larger: nat)
    requires
        smaller <= larger,
    ensures
        h.hits_below(smaller) <= h.hits_below(larger),
    decreases larger,
{
    if smaller < larger {
        lemma_hits_monotone(h, smaller, (larger - 1) as nat);
    }
}

/// Hits never exceed the number of accesses that were not cold.
pub proof fn lemma_hits_bounded(h: HistModel, capacity: nat)
    ensures
        h.hits_below(capacity) + h.cold <= h.total(),
{
    if capacity <= h.finite.len() {
        lemma_hits_monotone(h, capacity, h.finite.len());
    } else {
        lemma_hits_saturate(h, capacity);
    }
}

/// One bucket never holds more than all finite buckets together.
pub proof fn lemma_bucket_bounded(h: HistModel, k: int)
    ensures
        h.at(k) + h.cold <= h.total(),
{
    if 0 <= k < h.finite.len() {
        lemma_hits_monotone(h, (k + 1) as nat, h.finite.len());
    }
}

proof fn lemma_hits_by_buckets(a: HistModel, b: HistModel, capacity: nat)
    requires
        a.finite == b.finite,
    ensures
        a.hits_below(capacity) == b.hits_below(capacity),
    decreases capacity,
{
    if capacity > 0 {
        lemma_hits_by_buckets(a, b, (capacity - 1) as nat);
    }
}

proof fn lemma_record_hits(h: HistModel, k: usize, capacity: nat)
    ensures
        h.record(Distance::Finite(k)).hits_below(capacity) == h.hits_below(capacity) + if k
            < capacity { 1nat } else { 0nat },
    decreases capacity,
{
    if capacity > 0 {
        lemma_record_hits(h, k, (capacity - 1) as nat);
    }
}

/// Recording one access adds exactly one to the total, and to no other
/// bucket than its own.
pub proof fn lemma_record_total(h: HistModel, d: Distance)
    ensures
        h.record(d).total() == h.total() + 1,
        forall|e: Distance| #[trigger]
            h.record(d).count(e) == h.count(e) + if e == d { 1nat } else { 0nat },
{
    match d {
        Distance::Cold => {
            lemma_hits_by_buckets(h, h.record(d), h.finite.len());
        },
        Distance::Finite(k) => {
            let r = h.record(d);
            lemma_record_hits(h, k, r.finite.len());
            lemma_hits_saturate(h, r.finite.len());
        },
    }
}

pub proof fn lemma_record_canonical(h: HistModel, d: Distance)
    requires
        h.canonical(),
    ensures
        h.record(d).canonical(),
{
}

proof fn lemma_merge_hits(a: HistModel, b: HistModel, capacity: nat)
    ensures
        a.merge(b).hits_below(capacity) == a.hits_below(capacity) + b.hits_below(capacity),
    decreases capacity,
{
    if capacity > 0 {
        lemma_merge_hits(a, b, (capacity - 1) as nat);
    }
}

/// Merging adds the totals and every bucket.
pub proof fn lemma_merge_total(a: HistModel, b: HistModel)
    ensures
        a.merge(b).total() == a.total() + b.total(),
        forall|d: Distance| #[trigger] a.merge(b).count(d) == a.count(d) + b.count(d),
        forall|capacity: nat| #[trigger]
            a.merge(b).hits_below(capacity) == a.hits_below(capacity) + b.hits_below(capacity),
{
    let m = a.merge(b);
    lemma_merge_hits(a, b, m.finite.len());
    lemma_hits_saturate(a, m.finite.len());
    lemma_hits_saturate(b, m.finite.len());
    assert forall|capacity: nat| #[trigger]
        a.merge(b).hits_below(capacity) == a.hits_below(capacity) + b.hits_below(
            capacity,
        ) by {
        lemma_merge_hits(a, b, capacity);
    }
}

pub proof fn lemma_merge_canonical(a: HistModel, b: HistModel)
    requires
        a.canonical(),
        b.canonical(),
    ensures
        a.merge(b).canonical(),
{
}

/// Merging is commutative.
pub proof fn lemma_merge_commutative(a: HistModel, b: HistModel)
    ensures
        a.merge(b) == b.merge(a),
{
    assert(a.merge(b).finite =~= b.merge(a).finite);
}

/// Merging is associative.
pub proof fn lemma_merge_associative(a: HistModel, b: HistModel, c: HistModel)
    ensures
        a.merge(b).merge(c) == a.merge(b.merge(c)),
{
    assert(a.merge(b).merge(c).finite =~= a.merge(b.merge(c)).finite);
}

/// The empty histogram is the unit of merging.
pub proof fn lemma_merge_empty(a: HistModel)
    ensures
        a.merge(HistModel::empty()) == a,
        HistModel::empty().merge(a) == a,
{
    assert(a.merge(HistModel::empty()).finite =~= a.finite);
    assert(HistModel::empty().merge(a).finite =~= a.finite);
}

/// The hits of a tally at a capacity are the outcomes below that capacity.
pub proof fn lemma_tally_hits(ds: Seq<Distance>, capacity: nat)
    ensures
        tally(ds).hits_below(capacity) == outcomes_below(ds, capacity),
    decreases ds.len(),
{
    if ds.len() == 0 {
        lemma_hits_saturate(HistModel::empty(), capacity);
    } else {
        let before = tally(ds.drop_last());
        lemma_tally_hits(ds.drop_last(), capacity);
        match ds.last() {
            Distance::Cold => {
                lemma_hits_by_buckets(before, before.record(Distance::Cold), capacity);
            },
            Distance::Finite(k) => {
                lemma_record_hits(before, k, capacity);
            },
        }
    }
}

/// A tally holds one count per outcome, and its cold bucket holds the cold
/// outcomes.
pub proof fn lemma_tally_total(ds: Seq<Distance>)
    ensures
        tally(ds).total() == ds.len(),
        tally(ds).cold == cold_outcomes(ds),
        tally(ds).canonical(),
    decreases ds.len(),
{
    if ds.len() > 0 {
        lemma_tally_total(ds.drop_last());
        lemma_record_total(tally(ds.drop_last()), ds.last());
        lemma_record_canonical(tally(ds.drop_last()), ds.last());
    }
}

/// A histogram of reuse distances.
#[derive(Clone, Debug, PartialEq, Eq)]
pub struct Histogram {
    cold: u64,
    finite: Vec<u64>,
}

impl View for Histogram {
    type V = HistModel;

    closed spec fn view(&self) -> HistModel {
        HistModel { cold: self.cold as nat, finite: self.finite@.map_values(|c: u64| c as nat) }
    }
}

impl Histogram {
    /// The representation is canonical and every count fits its field.
    pub closed spec fn wf(&self) -> bool {
        self@.canonical() && self@.total() <= u64::MAX
    }

    /// The stored words: the cold count and the finite counts in order.
    pub closed spec fn stored(&self) -> (u64, Seq<u64>) {
        (self.cold, self.finite@)
    }

    pub proof fn lemma_wf(&self)
        requires
            self.wf(),
        ensures
            self@.canonical(),
            self@.total() <= u64::MAX,
    {
    }

    /// The content fixes the stored words: two histograms with the same
    /// counts are stored identically.
    pub proof fn lemma_content_fixes_stored(&self, other: &Histogram)
        requires
            self@ == other@,
        ensures
            self.stored() == other.stored(),
    {
        assert(self.finite@.len() == self@.finite.len());
        assert(other.finite@.len() == other@.finite.len());
        assert forall|i: int| 0 <= i < self.finite@.len() implies self.finite@[i]
            == other.finite@[i] by {
            assert(self@.finite[i] == self.finite@[i] as nat);
            assert(other@.finite[i] == other.finite@[i] as nat);
        }
        assert(self.finite@ =~= other.finite@);
    }

    pub fn new() -> (h: Histogram)
        ensures
            h.wf(),
            h@ == HistModel::empty(),
    {
        let h = Histogram { cold: 0, finite: Vec::new() };
        assert(h@.finite =~= Seq::<nat>::empty());
        h
    }

    /// Adds one access at distance `d`.
    pub fn record(&mut self, d: Distance)
        requires
            old(self).wf(),
            old(self)@.total() < u64::MAX,
            d matches Distance::Finite(k) ==> k < usize::MAX,
        ensures
            final(self).wf(),
            final(self)@ == old(self)@.record(d),
    {
        let ghost before = self@;
        proof {
            lemma_record_total(before, d);
            lemma_record_canonical(before, d);
        }
        match d {
            Distance::Cold => {
                self.cold = self.cold + 1;
                assert(self@.finite =~= before.record(d).finite);
            },
            Distance::Finite(k) => {
                while self.finite.len() <= k
                    invariant
                        k < usize::MAX,
                        self.cold == before.cold,
                        before.finite.len() <= self.finite@.len(),
                        self.finite@.len() <= before.finite.len() || self.finite@.len() <= k + 1,
                        forall|i: int|
                            0 <= i < self.finite@.len() ==> #[trigger] self.finite@[i]
                                == before.at(i),
                    decreases k + 1 - self.finite.len(),
                {
                    self.finite.push(0);
                }
                let c = self.finite[k];
                proof {
                    lemma_bucket_bounded(before, k as int);
                }
                self.finite.set(k, c + 1);
                assert(self@.finite =~= before.record(d).finite);
            },
        }
    }

    /// Adds every count of `other` to the same bucket of this histogram.
    pub fn merge(&mut self, other: &Histogram)
        requires
            old(self).wf(),
            other.wf(),
            old(self)@.total() + other@.total() <= u64::MAX,
        ensures
            final(self).wf(),
            final(self)@ == old(self)@.merge(other@),
    {
        let ghost before = self@;
        let ghost merged = before.merge(other@);
        proof {
            lemma_merge_total(before, other@);
            lemma_merge_canonical(before, other@);
        }
        self.cold = self.cold + other.cold;
        let n = other.finite.len();
        let mut i: usize = 0;
        while i < n
            invariant
                i <= n,
                n == other.finite@.len(),
                self.cold == merged.cold,
                merged == before.merge(other@),
                merged.total() <= u64::MAX,
                self.finite@.len() == if i <= before.finite.len() {
                    before.finite.len()
                } else {
                    i as nat
                },
                forall|j: int|
                    0 <= j < self.finite@.len() ==> #[trigger] self.finite@[j] == if j < i {
                        merged.at(j)
                    } else {
                        before.at(j)
                    },
            decreases n - i,
        {
            proof {
                lemma_bucket_bounded(merged, i as int);
            }
            if i < self.finite.len() {
                let c = self.finite[i];
                self.finite.set(i, c + other.finite[i]);
            } else {
                self.finite.push(other.finite[i]);
            }
            i = i + 1;
        }
        assert(self@.finite =~= merged.finite);
    }

    /// The count of one bucket.
    pub fn count(&self, d: Distance) -> (c: u64)
        ensures
            c == self@.count(d),
    {
        match d {
            Distance::Cold => self.cold,
            Distance::Finite(k) => {
                if k < self.finite.len() {
                    self.finite[k]
                } else {
                    0
                }
            },
        }
    }

    /// The number of cold accesses.
    pub fn cold(&self) -> (c: u64)
        ensures
            c == self@.cold,
    {
        self.cold
    }

    /// The number of finite buckets stored: one more than the largest
    /// distance recorded, or zero.
    pub fn span(&self) -> (n: usize)
        ensures
            n == self@.finite.len(),
    {
        self.finite.len()
    }

    /// The number of accesses with a finite distance below `capacity`.
    pub fn hits_below(&self, capacity: usize) -> (hits: u64)
        requires
            self.wf(),
        ensures
            hits == self@.hits_below(capacity as nat),
    {
        let n = if capacity < self.finite.len() {
            capacity
        } else {
            self.finite.len()
        };
        proof {
            if capacity >= self.finite.len() {
                lemma_hits_saturate(self@, capacity as nat);
            }
        }
        let mut hits: u64 = 0;
        let mut i: usize = 0;
        while i < n
            invariant
                i <= n <= self.finite@.len(),
                self.wf(),
                hits == self@.hits_below(i as nat),
            decreases n - i,
        {
            proof {
                lemma_hits_bounded(self@, (i + 1) as nat);
            }
            hits = hits + self.finite[i];
            i = i + 1;
        }
        hits
    }

    /// The number of accesses recorded, cold ones included.
    pub fn total(&self) -> (t: u64)
        requires
            self.wf(),
        ensures
            t == self@.total(),
    {
        let finite = self.hits_below(self.finite.len());
        self.cold + finite
    }
}

} // verus!
