//! A growable binary indexed tree: counts kept by position, with prefix
//! sums, point updates and appends in logarithmic time.

use vstd::prelude::*;

verus! {

/// Sum of the first `n` entries of `a`.
pub open spec fn prefix_sum(a: Seq<nat>, n: int) -> nat
    decreases n,
{
    if n <= 0 {
        0
    } else {
        prefix_sum(a, n - 1) + a[n - 1]
    }
}

/// The lowest set bit of `i`: the number of positions that node `i` covers.
pub open spec fn lowbit(i: u64) -> u64 {
    i & !((i - 1) as u64)
}

proof fn lemma_lowbit_range(i: u64)
    requires
        i >= 1,
    ensures
        1 <= lowbit(i) <= i,
{
    assert(i >= 1 ==> 1 <= (i & !((i - 1) as u64)) && (i & !((i - 1) as u64)) <= i)
        by (bit_vector);
}

/// The node after `j` on the way up starts no later than `j` does.
proof fn lemma_parent_covers(j: u64)
    requires
        j >= 1,
        j + lowbit(j) <= u64::MAX,
    ensures
        (j + lowbit(j)) - lowbit((j + lowbit(j)) as u64) <= j - lowbit(j),
{
    let lb = lowbit(j);
    let up = (j + lb) as u64;
    assert(j >= 1 && lb == (j & !((j - 1) as u64)) && up == j + lb ==> up - (up & !((up - 1) as u64))
        <= j - lb) by (bit_vector);
}

/// A node strictly between `j` and the next node on the way up starts at
/// `j` or later.
proof fn lemma_between_starts_late(j: u64, k: u64)
    requires
        j >= 1,
        j < k,
        k - j < lowbit(j),
    ensures
        k - lowbit(k) >= j,
{
    assert(j >= 1 && j < k && k - j < (j & !((j - 1) as u64)) ==> k - (k & !((k - 1) as u64))
        >= j) by (bit_vector);
}

pub proof fn lemma_prefix_monotone(a: Seq<nat>, m: int, n: int)
    requires
        m <= n,
    ensures
        prefix_sum(a, m) <= prefix_sum(a, n),
    decreases n,
{
    if m < n && n > 0 {
        lemma_prefix_monotone(a, m, n - 1);
    }
}

/// An entry is no larger than any prefix sum that includes it.
pub proof fn lemma_prefix_holds_entry(a: Seq<nat>, p: int, n: int)
    requires
        0 <= p < n,
    ensures
        prefix_sum(a, p) + a[p] <= prefix_sum(a, n),
{
    lemma_prefix_monotone(a, p + 1, n);
}

pub proof fn lemma_prefix_push(a: Seq<nat>, v: nat, n: int)
    requires
        n <= a.len(),
    ensures
        prefix_sum(a.push(v), n) == prefix_sum(a, n),
    decreases n,
{
    if n > 0 {
        lemma_prefix_push(a, v, n - 1);
    }
}

pub proof fn lemma_prefix_update(a: Seq<nat>, p: int, v: nat, n: int)
    requires
        0 <= p < a.len(),
        n <= a.len(),
    ensures
        prefix_sum(a.update(p, v), n) == if n > p {
            prefix_sum(a, n) - a[p] + v
        } else {
            prefix_sum(a, n) as int
        },
    decreases n,
{
    if n > 0 {
        lemma_prefix_update(a, p, v, n - 1);
    }
}

/// Counts by position, with prefix sums in logarithmic time.
pub struct Fenwick {
    tree: Vec<u64>,
    marks: Ghost<Seq<nat>>,
}

impl View for Fenwick {
    type V = Seq<nat>;

    closed spec fn view(&self) -> Seq<nat> {
        self.marks@
    }
}

/// Node `i` holds the sum of the `lowbit(i)` entries that end at `i`.
spec fn covers(tree: Seq<u64>, marks: Seq<nat>, i: int) -> bool {
    tree[i] == prefix_sum(marks, i) - prefix_sum(marks, i - lowbit(i as u64))
}

impl Fenwick {
    pub closed spec fn wf(&self) -> bool {
        &&& self.tree@.len() == self.marks@.len() + 1
        &&& self.tree@.len() <= usize::MAX
        &&& prefix_sum(self.marks@, self.marks@.len() as int) <= u64::MAX
        &&& forall|i: int| 1 <= i < self.tree@.len() ==> covers(self.tree@, self.marks@, i)
    }

    pub proof fn lemma_wf(&self)
        requires
            self.wf(),
        ensures
            self@.len() < usize::MAX,
            prefix_sum(self@, self@.len() as int) <= u64::MAX,
    {
    }

    pub fn new() -> (f: Fenwick)
        ensures
            f.wf(),
            f@ == Seq::<nat>::empty(),
    {
        let mut tree: Vec<u64> = Vec::new();
        tree.push(0);
        Fenwick { tree, marks: Ghost(Seq::empty()) }
    }

    /// The number of positions.
    pub fn len(&self) -> (n: usize)
        requires
            self.wf(),
        ensures
            n == self@.len(),
    {
        self.tree.len() - 1
    }

    /// The sum of the counts at the positions before `end`.
    pub fn prefix(&self, end: usize) -> (total: u64)
        requires
            self.wf(),
            end <= self@.len(),
        ensures
            total == prefix_sum(self@, end as int),
    {
        let mut total: u64 = 0;
        let mut j: u64 = end as u64;
        proof {
            lemma_prefix_monotone(self@, end as int, self@.len() as int);
        }
        while j > 0
            invariant
                self.wf(),
                j <= end <= self@.len(),
                prefix_sum(self@, end as int) <= u64::MAX,
                total + prefix_sum(self@, j as int) == prefix_sum(self@, end as int),
            decreases j,
        {
            proof {
                lemma_lowbit_range(j);
                assert(covers(self.tree@, self.marks@, j as int));
            }
            let lb = j & !(j - 1);
            total = total + self.tree[j as usize];
            j = j - lb;
        }
        total
    }

    /// Appends a position holding `value`.
    #[verifier::rlimit(30)]
    pub fn push(&mut self, value: u64)
        requires
            old(self).wf(),
            prefix_sum(old(self)@, old(self)@.len() as int) + value <= u64::MAX,
        ensures
            final(self).wf(),
            final(self)@ == old(self)@.push(value as nat),
    {
        let ghost before = self.marks@;
        let ghost after = before.push(value as nat);
        let n: usize = self.tree.len() - 1;
        let m: u64 = n as u64 + 1;
        proof {
            lemma_lowbit_range(m);
        }
        let lb = m & !(m - 1);
        let upto = self.prefix(n);
        let skipped = self.prefix((m - lb) as usize);
        proof {
            lemma_prefix_monotone(before, m - lb, n as int);
        }
        self.tree.push(upto - skipped + value);
        self.marks = Ghost(after);
        let nodes = self.tree.len();
        proof {
            assert(nodes == n + 2);
            lemma_prefix_push(before, value as nat, n as int);
            assert forall|i: int| 1 <= i < self.tree@.len() implies covers(
                self.tree@,
                self.marks@,
                i,
            ) by {
                lemma_lowbit_range(i as u64);
                if i <= n {
                    assert(covers(old(self).tree@, before, i));
                    lemma_prefix_push(before, value as nat, i);
                    lemma_prefix_push(before, value as nat, i - lowbit(i as u64));
                } else {
                    lemma_prefix_push(before, value as nat, n as int);
                    lemma_prefix_push(before, value as nat, m - lb);
                }
            }
        }
    }

    /// Takes `by` away from the count at `pos`.
    #[verifier::rlimit(30)]
    pub fn decrease(&mut self, pos: usize, by: u64)
        requires
            old(self).wf(),
            pos < old(self)@.len(),
            by <= old(self)@[pos as int],
        ensures
            final(self).wf(),
            final(self)@ == old(self)@.update(pos as int, (old(self)@[pos as int] - by) as nat),
    {
        let ghost before = self.marks@;
        let ghost after = before.update(pos as int, (before[pos as int] - by) as nat);
        let n: u64 = (self.tree.len() - 1) as u64;
        let q: u64 = pos as u64 + 1;
        let mut j: u64 = q;
        self.marks = Ghost(after);
        proof {
            lemma_lowbit_range(q);
            assert forall|i: int| 1 <= i < q implies covers(self.tree@, after, i) by {
                lemma_lowbit_range(i as u64);
                assert(covers(old(self).tree@, before, i));
                lemma_prefix_update(before, pos as int, after[pos as int], i);
                lemma_prefix_update(before, pos as int, after[pos as int], i - lowbit(i as u64));
            }
            assert forall|i: int| q <= i <= n implies covers(self.tree@, before, i) by {
                assert(covers(old(self).tree@, before, i));
            }
        }
        while j <= n
            invariant
                1 <= q <= j <= n + 1,
                q == pos + 1,
                n + 1 == self.tree@.len(),
                n < usize::MAX,
                before.len() == n,
                self.marks@ == after,
                prefix_sum(before, n as int) <= u64::MAX,
                by <= before[pos as int],
                after == before.update(pos as int, (before[pos as int] - by) as nat),
                j <= n ==> j - lowbit(j) < q,
                forall|i: int| 1 <= i < j ==> covers(self.tree@, after, i),
                forall|i: int| j <= i <= n ==> covers(self.tree@, before, i),
            decreases n + 1 - j,
        {
            let ghost tree_before = self.tree@;
            proof {
                lemma_lowbit_range(j);
                assert(covers(tree_before, before, j as int));
                lemma_prefix_monotone(before, j - lowbit(j), pos as int);
                lemma_prefix_holds_entry(before, pos as int, j as int);
            }
            let lb = j & !(j - 1);
            let held = self.tree[j as usize];
            self.tree.set(j as usize, held - by);
            let next = if lb <= n - j {
                j + lb
            } else {
                n + 1
            };
            proof {
                lemma_prefix_update(before, pos as int, after[pos as int], j as int);
                lemma_prefix_update(before, pos as int, after[pos as int], j - lb);
                assert(covers(self.tree@, after, j as int));
                assert forall|i: int| 1 <= i < next implies covers(self.tree@, after, i) by {
                    if i < j {
                        assert(covers(tree_before, after, i));
                    } else if i > j {
                        assert(covers(tree_before, before, i));
                        lemma_between_starts_late(j, i as u64);
                        lemma_lowbit_range(i as u64);
                        lemma_prefix_update(before, pos as int, after[pos as int], i);
                        lemma_prefix_update(
                            before,
                            pos as int,
                            after[pos as int],
                            i - lowbit(i as u64),
                        );
                    }
                }
                assert forall|i: int| next <= i <= n implies covers(self.tree@, before, i) by {
                    assert(covers(tree_before, before, i));
                }
                if next <= n {
                    lemma_parent_covers(j);
                }
            }
            j = next;
        }
        proof {
            lemma_prefix_update(before, pos as int, after[pos as int], n as int);
        }
    }
}

} // verus!
