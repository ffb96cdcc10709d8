//! The iteration domain: a nest of loops and the array accesses of its
//! innermost body.

use crate::affine::{Affine, Term};
use vstd::prelude::*;

verus! {

/// One loop: its index runs from `lower` in steps of `step` for as long as
/// it stays before `upper` (below it for a positive step, above it for a
/// negative one). Both bounds may read the indices of the enclosing loops.
#[derive(Clone, Debug, PartialEq, Eq)]
pub struct LoopDim {
    pub name: String,
    pub lower: Affine,
    pub upper: Affine,
    pub step: i64,
}

impl LoopDim {
    /// The loop can stand at nesting depth `depth`: it moves, and its bounds
    /// read enclosing loops only.
    pub open spec fn fits_depth(&self, depth: nat) -> bool {
        &&& self.step != 0
        &&& self.lower.reads_below(depth)
        &&& self.upper.reads_below(depth)
    }

    /// Whether the index value `v` is still before the bound `upper`.
    pub open spec fn before(&self, v: int, upper: int) -> bool {
        if self.step > 0 {
            v < upper
        } else {
            v > upper
        }
    }

    /// The loop `for name in 0..trip_count`.
    pub open spec fn counts(&self, name: Seq<char>, trip_count: int) -> bool {
        &&& self.name@ == name
        &&& self.lower.constant == 0
        &&& self.lower.terms@.len() == 0
        &&& self.upper.constant == trip_count
        &&& self.upper.terms@.len() == 0
        &&& self.step == 1
    }
}

/// An array that the body of a nest touches: its name and the number of
/// its elements.
#[derive(Clone, Debug, PartialEq, Eq)]
pub struct ArrayDecl {
    pub name: String,
    pub extent: u64,
}

/// An array access of the loop body: element `index` of the array at
/// position `array` among the arrays of the nest.
#[derive(Clone, Debug, PartialEq, Eq)]
pub struct Access {
    pub array: usize,
    pub index: Affine,
}

/// One summand of a reference: a coefficient times the index of the loop
/// called `var`.
#[derive(Clone, Debug, PartialEq, Eq)]
pub struct NamedTerm {
    pub var: String,
    pub coeff: i64,
}

/// An array reference as written in a loop body, before it is attached to
/// a nest: the element offset is `constant` plus the sum of the terms, in
/// an array of `extent` elements.
#[derive(Clone, Debug, PartialEq, Eq)]
pub struct Reference {
    pub array: String,
    pub extent: u64,
    pub constant: i64,
    pub terms: Vec<NamedTerm>,
}

/// Why a nest or a reference could not be built.
#[derive(Clone, Copy, Debug, PartialEq, Eq, Structural)]
pub enum DomainError {
    /// A loop with step zero.
    ZeroStep,
    /// A bound reads a loop that does not enclose it.
    UnboundIndex,
    /// A reference names an index variable that no loop of the nest has.
    UnknownIndex,
    /// An array is referenced again with another extent.
    ExtentMismatch,
    /// A stride of the array does not fit its field.
    TooLarge,
}

/// Position of the outermost loop called `var` at or after `from`, or -1.
pub open spec fn loop_named(dims: Seq<LoopDim>, var: Seq<char>, from: int) -> int
    decreases dims.len() - from,
{
    if from < 0 || from >= dims.len() {
        -1
    } else if dims[from].name@ == var {
        from
    } else {
        loop_named(dims, var, from + 1)
    }
}

/// Position of the array called `name` at or after `from`, or -1.
pub open spec fn array_named(arrays: Seq<ArrayDecl>, name: Seq<char>, from: int) -> int
    decreases arrays.len() - from,
{
    if from < 0 || from >= arrays.len() {
        -1
    } else if arrays[from].name@ == name {
        from
    } else {
        array_named(arrays, name, from + 1)
    }
}

/// No two arrays share a name.
pub open spec fn distinct_names(arrays: Seq<ArrayDecl>) -> bool {
    forall|i: int, j: int|
        0 <= i < j < arrays.len() ==> (#[trigger] arrays[i]).name@ != (#[trigger] arrays[j]).name@
}

/// A nest of loops, outermost first, with the accesses of the innermost
/// body in textual order.
#[derive(Clone, Debug, PartialEq, Eq)]
pub struct LoopNest {
    pub(crate) dims: Vec<LoopDim>,
    pub(crate) arrays: Vec<ArrayDecl>,
    pub(crate) accesses: Vec<Access>,
}

impl LoopNest {
    /// The loops, outermost first.
    pub closed spec fn dims(&self) -> Seq<LoopDim> {
        self.dims@
    }

    /// The accesses of the body, in textual order.
    pub closed spec fn accesses(&self) -> Seq<Access> {
        self.accesses@
    }

    /// The arrays that the body touches, in the order of their first
    /// access.
    pub closed spec fn arrays(&self) -> Seq<ArrayDecl> {
        self.arrays@
    }

    pub open spec fn wf(&self) -> bool {
        &&& forall|d: int|
            0 <= d < self.dims().len() ==> (#[trigger] self.dims()[d]).fits_depth(d as nat)
        &&& forall|a: int|
            0 <= a < self.accesses().len() ==> (#[trigger] self.accesses()[a]).index.reads_below(
                self.dims().len(),
            ) && self.accesses()[a].array < self.arrays().len()
        &&& distinct_names(self.arrays())
    }

    /// The nest without loops: its body runs once.
    pub fn new() -> (nest: LoopNest)
        ensures
            nest.wf(),
            nest.dims().len() == 0,
            nest.accesses().len() == 0,
            nest.arrays().len() == 0,
    {
        LoopNest { dims: Vec::new(), arrays: Vec::new(), accesses: Vec::new() }
    }

    /// The number of loops.
    pub fn depth(&self) -> (n: usize)
        ensures
            n == self.dims().len(),
    {
        self.dims.len()
    }

    /// The loop at depth `d`.
    pub fn dim(&self, d: usize) -> (dim: &LoopDim)
        requires
            d < self.dims().len(),
        ensures
            *dim == self.dims()[d as int],
    {
        &self.dims[d]
    }

    /// The number of accesses in the body.
    pub fn access_count(&self) -> (n: usize)
        ensures
            n == self.accesses().len(),
    {
        self.accesses.len()
    }

    /// The access at position `a` of the body.
    pub fn access(&self, a: usize) -> (access: &Access)
        requires
            a < self.accesses().len(),
        ensures
            *access == self.accesses()[a as int],
    {
        &self.accesses[a]
    }

    /// The number of arrays that the body touches.
    pub fn array_count(&self) -> (n: usize)
        ensures
            n == self.arrays().len(),
    {
        self.arrays.len()
    }

    /// The array at position `k`.
    pub fn array(&self, k: usize) -> (array: &ArrayDecl)
        requires
            k < self.arrays().len(),
        ensures
            *array == self.arrays()[k as int],
    {
        &self.arrays[k]
    }

    /// Adds `dim` as the new innermost loop.
    pub fn push_loop(&mut self, dim: LoopDim) -> (r: Result<(), DomainError>)
        requires
            old(self).wf(),
        ensures
            final(self).wf(),
            final(self).accesses() == old(self).accesses(),
            final(self).arrays() == old(self).arrays(),
            match r {
                Ok(()) => dim.fits_depth(old(self).dims().len()) && final(self).dims() == old(
                    self,
                ).dims().push(dim),
                Err(e) => final(self).dims() == old(self).dims() && if dim.step == 0 {
                    e == DomainError::ZeroStep
                } else {
                    e == DomainError::UnboundIndex && !dim.fits_depth(old(self).dims().len())
                },
            },
    {
        if dim.step == 0 {
            return Err(DomainError::ZeroStep);
        }
        let depth = self.dims.len();
        if !reads_below(&dim.lower, depth) || !reads_below(&dim.upper, depth) {
            return Err(DomainError::UnboundIndex);
        }
        self.dims.push(dim);
        proof {
            assert forall|d: int|
                0 <= d < self.dims().len() implies (#[trigger] self.dims()[d]).fits_depth(
                d as nat,
            ) by {
                if d < depth {
                    assert(self.dims()[d] == old(self).dims()[d]);
                }
            }
            assert forall|a: int|
                0 <= a < self.accesses().len() implies (#[trigger] self.accesses()[a]).index.reads_below(
                self.dims().len(),
            ) && self.accesses()[a].array < self.arrays().len() by {
                assert(old(self).accesses()[a].index.reads_below(depth as nat));
            }
        }
        Ok(())
    }
}

/// Whether every term of `e` reads a loop index below `depth`.
pub fn reads_below(e: &Affine, depth: usize) -> (ok: bool)
    ensures
        ok == e.reads_below(depth as nat),
{
    let mut k: usize = 0;
    while k < e.terms.len()
        invariant
            k <= e.terms@.len(),
            forall|j: int| 0 <= j < k ==> (#[trigger] e.terms@[j]).dim < depth,
        decreases e.terms@.len() - k,
    {
        if e.terms[k].dim >= depth {
            return false;
        }
        k = k + 1;
    }
    true
}

/// A nest of `names.len()` loops, each running from 0 to `trip_count` in
/// steps of one, the first name outermost.
pub fn nested_loops(names: &[&str], trip_count: i32) -> (nest: LoopNest)
    ensures
        nest.wf(),
        nest.dims().len() == names@.len(),
        forall|d: int|
            0 <= d < names@.len() ==> (#[trigger] nest.dims()[d]).counts(
                names@[d]@,
                trip_count as int,
            ),
        nest.accesses().len() == 0,
        nest.arrays().len() == 0,
{
    let mut dims: Vec<LoopDim> = Vec::new();
    let mut d: usize = 0;
    while d < names.len()
        invariant
            d <= names@.len(),
            dims@.len() == d,
            forall|j: int| 0 <= j < d ==> (#[trigger] dims@[j]).fits_depth(j as nat),
            forall|j: int| 0 <= j < d ==> (#[trigger] dims@[j]).counts(names@[j]@, trip_count as int),
        decreases names@.len() - d,
    {
        let dim = LoopDim {
            name: names[d].to_owned(),
            lower: Affine::constant(0),
            upper: Affine::constant(trip_count as i64),
            step: 1,
        };
        dims.push(dim);
        d = d + 1;
    }
    LoopNest { dims, arrays: Vec::new(), accesses: Vec::new() }
}

/// `base` to the power `exp`.
pub open spec fn power(base: int, exp: nat) -> int
    decreases exp,
{
    if exp == 0 {
        1
    } else {
        base * power(base, (exp - 1) as nat)
    }
}

/// Every power of `side` up to the `rank`-th fits the 64-bit range.
pub open spec fn square_fits(side: int, rank: nat) -> bool {
    forall|j: nat| j <= rank ==> i64::MIN <= #[trigger] power(side, j) <= i64::MAX
}

pub proof fn lemma_power_positive(base: int, exp: nat)
    requires
        base > 0,
    ensures
        power(base, exp) > 0,
    decreases exp,
{
    if exp > 0 {
        lemma_power_positive(base, (exp - 1) as nat);
        assert(base * power(base, (exp - 1) as nat) > 0) by (nonlinear_arith)
            requires
                base > 0,
                power(base, (exp - 1) as nat) > 0,
        ;
    }
}

/// A reference into a square array of `index_vars.len()` dimensions of side
/// `trip_count`, stored row by row: the listed loop indices select the
/// element, the first one varying slowest.
#[verifier::rlimit(30)]
pub fn squ_ref(array_name: &str, trip_count: i32, index_vars: Vec<&str>) -> (r: Result<
    Reference,
    DomainError,
>)
    ensures
        r.is_ok() <==> square_fits(trip_count as int, index_vars@.len()),
        r matches Err(e) ==> e == DomainError::TooLarge,
        r matches Ok(reference) ==> {
            &&& reference.array@ == array_name@
            &&& reference.constant == 0
            &&& reference.extent == power(
                if trip_count > 0 {
                    trip_count as int
                } else {
                    0
                },
                index_vars@.len(),
            )
            &&& reference.terms@.len() == index_vars@.len()
            &&& forall|k: int|
                0 <= k < index_vars@.len() ==> (#[trigger] reference.terms@[k]).var@
                    == index_vars@[k]@ && reference.terms@[k].coeff == power(
                    trip_count as int,
                    (index_vars@.len() - 1 - k) as nat,
                )
        },
{
    let rank = index_vars.len();
    let mut powers: Vec<i64> = Vec::new();
    powers.push(1);
    let mut j: usize = 0;
    while j < rank
        invariant
            j <= rank,
            rank == index_vars@.len(),
            powers@.len() == j + 1,
            forall|i: int| 0 <= i <= j ==> #[trigger] powers@[i] == power(trip_count as int, i as nat),
        decreases rank - j,
    {
        let last = powers[j];
        assert(-0x4000_0000_0000_0000_0000_0000_0000_0000 <= last * trip_count
            <= 0x4000_0000_0000_0000_0000_0000_0000_0000) by (nonlinear_arith)
            requires
                -0x8000_0000_0000_0000 <= last < 0x8000_0000_0000_0000,
                -0x8000_0000 <= trip_count < 0x8000_0000,
        ;
        let next: i128 = (last as i128) * (trip_count as i128);
        assert(next == power(trip_count as int, (j + 1) as nat)) by (nonlinear_arith)
            requires
                next == last * trip_count,
                power(trip_count as int, (j + 1) as nat) == trip_count * power(
                    trip_count as int,
                    j as nat,
                ),
                last == power(trip_count as int, j as nat),
        ;
        if next < i64::MIN as i128 || next > i64::MAX as i128 {
            assert(!square_fits(trip_count as int, index_vars@.len())) by {
                let exp = (j + 1) as nat;
                assert(!(i64::MIN <= power(trip_count as int, exp) <= i64::MAX));
            }
            return Err(DomainError::TooLarge);
        }
        powers.push(next as i64);
        j = j + 1;
    }
    assert(square_fits(trip_count as int, rank as nat)) by {
        assert forall|i: nat| i <= rank implies i64::MIN <= #[trigger] power(trip_count as int, i)
            <= i64::MAX by {
            assert(powers@[i as int] == power(trip_count as int, i));
        }
    }
    let extent: u64 = if trip_count > 0 {
        proof {
            lemma_power_positive(trip_count as int, rank as nat);
        }
        powers[rank] as u64
    } else if rank == 0 {
        1
    } else {
        assert(power(0, rank as nat) == 0 * power(0, (rank - 1) as nat));
        0
    };
    let mut terms: Vec<NamedTerm> = Vec::new();
    let mut k: usize = 0;
    while k < rank
        invariant
            k <= rank,
            rank == index_vars@.len(),
            powers@.len() == rank + 1,
            terms@.len() == k,
            forall|i: int|
                0 <= i <= rank ==> #[trigger] powers@[i] == power(trip_count as int, i as nat),
            forall|i: int|
                0 <= i < k ==> (#[trigger] terms@[i]).var@ == index_vars@[i]@ && terms@[i].coeff
                    == power(trip_count as int, (rank - 1 - i) as nat),
        decreases rank - k,
    {
        terms.push(NamedTerm { var: index_vars[k].to_owned(), coeff: powers[rank - 1 - k] });
        k = k + 1;
    }
    Ok(Reference { array: array_name.to_owned(), extent, constant: 0, terms })
}

/// Every index variable of `reference` names a loop of `dims`.
pub open spec fn resolvable(reference: Reference, dims: Seq<LoopDim>) -> bool {
    forall|k: int|
        0 <= k < reference.terms@.len() ==> loop_named(dims, (#[trigger] reference.terms@[k]).var@, 0)
            >= 0
}

/// The terms of `reference` with each variable replaced by the position of
/// the outermost loop of that name.
pub open spec fn resolved_terms(reference: Reference, dims: Seq<LoopDim>) -> Seq<Term> {
    Seq::new(
        reference.terms@.len(),
        |k: int|
            Term {
                dim: loop_named(dims, reference.terms@[k].var@, 0) as usize,
                coeff: reference.terms@[k].coeff,
            },
    )
}

/// Why `reference` cannot be attached to `nest`, if it cannot.
pub open spec fn attach_error(reference: Reference, nest: LoopNest) -> Option<DomainError> {
    let found = array_named(nest.arrays(), reference.array@, 0);
    if !resolvable(reference, nest.dims()) {
        Some(DomainError::UnknownIndex)
    } else if found >= 0 && nest.arrays()[found].extent != reference.extent {
        Some(DomainError::ExtentMismatch)
    } else {
        None
    }
}

/// `after` is `before` with `reference` attached as the last access of the
/// body: an array seen before keeps its position, a new one comes behind
/// all others.
pub open spec fn attached(reference: Reference, before: LoopNest, after: LoopNest) -> bool {
    let found = array_named(before.arrays(), reference.array@, 0);
    let access = after.accesses().last();
    &&& after.dims() == before.dims()
    &&& after.accesses().len() == before.accesses().len() + 1
    &&& after.accesses().drop_last() == before.accesses()
    &&& access.index.constant == reference.constant
    &&& access.index.terms@ == resolved_terms(reference, before.dims())
    &&& if found >= 0 {
        after.arrays() == before.arrays() && access.array == found
    } else {
        &&& after.arrays().len() == before.arrays().len() + 1
        &&& after.arrays().drop_last() == before.arrays()
        &&& after.arrays().last().name@ == reference.array@
        &&& after.arrays().last().extent == reference.extent
        &&& access.array == before.arrays().len()
    }
}

pub proof fn lemma_loop_named(dims: Seq<LoopDim>, var: Seq<char>, from: int)
    requires
        0 <= from,
    ensures
        loop_named(dims, var, from) == -1 || (from <= loop_named(dims, var, from) < dims.len()
            && dims[loop_named(dims, var, from)].name@ == var),
        loop_named(dims, var, from) == -1 ==> forall|d: int|
            from <= d < dims.len() ==> (#[trigger] dims[d]).name@ != var,
    decreases dims.len() - from,
{
    if from < dims.len() && dims[from].name@ != var {
        lemma_loop_named(dims, var, from + 1);
    }
}

pub proof fn lemma_array_named(arrays: Seq<ArrayDecl>, name: Seq<char>, from: int)
    requires
        0 <= from,
    ensures
        array_named(arrays, name, from) == -1 || (from <= array_named(arrays, name, from)
            < arrays.len() && arrays[array_named(arrays, name, from)].name@ == name),
        array_named(arrays, name, from) == -1 ==> forall|k: int|
            from <= k < arrays.len() ==> (#[trigger] arrays[k]).name@ != name,
    decreases arrays.len() - from,
{
    if from < arrays.len() && arrays[from].name@ != name {
        lemma_array_named(arrays, name, from + 1);
    }
}

impl LoopNest {
    /// The position of the outermost loop called `var`.
    pub fn find_loop(&self, var: &String) -> (r: Option<usize>)
        ensures
            match r {
                Some(d) => d == loop_named(self.dims(), var@, 0),
                None => loop_named(self.dims(), var@, 0) == -1,
            },
    {
        let mut d: usize = 0;
        while d < self.dims.len()
            invariant
                d <= self.dims@.len(),
                loop_named(self.dims@, var@, 0) == loop_named(self.dims@, var@, d as int),
            decreases self.dims@.len() - d,
        {
            if self.dims[d].name == *var {
                return Some(d);
            }
            d = d + 1;
        }
        None
    }

    /// The position of the array called `name`.
    pub fn find_array(&self, name: &String) -> (r: Option<usize>)
        ensures
            match r {
                Some(k) => k == array_named(self.arrays(), name@, 0),
                None => array_named(self.arrays(), name@, 0) == -1,
            },
    {
        let mut k: usize = 0;
        while k < self.arrays.len()
            invariant
                k <= self.arrays@.len(),
                array_named(self.arrays@, name@, 0) == array_named(self.arrays@, name@, k as int),
            decreases self.arrays@.len() - k,
        {
            if self.arrays[k].name == *name {
                return Some(k);
            }
            k = k + 1;
        }
        None
    }
}

/// Attaches `reference` to `nest` as the last access of the innermost body.
#[verifier::rlimit(30)]
pub fn insert_at_innermost(reference: &Reference, nest: &mut LoopNest) -> (r: Result<
    (),
    DomainError,
>)
    requires
        old(nest).wf(),
    ensures
        final(nest).wf(),
        match r {
            Ok(()) => attach_error(*reference, *old(nest)).is_none() && attached(
                *reference,
                *old(nest),
                *final(nest),
            ),
            Err(e) => attach_error(*reference, *old(nest)) == Some(e) && *final(nest) == *old(
                nest,
            ),
        },
{
    let mut terms: Vec<Term> = Vec::new();
    let mut k: usize = 0;
    while k < reference.terms.len()
        invariant
            k <= reference.terms@.len(),
            *nest == *old(nest),
            nest.wf(),
            terms@.len() == k,
            forall|i: int|
                0 <= i < k ==> loop_named(nest.dims(), (#[trigger] reference.terms@[i]).var@, 0)
                    >= 0,
            forall|i: int|
                0 <= i < k ==> #[trigger] terms@[i] == resolved_terms(*reference, nest.dims())[i],
        decreases reference.terms@.len() - k,
    {
        match nest.find_loop(&reference.terms[k].var) {
            None => {
                return Err(DomainError::UnknownIndex);
            },
            Some(d) => {
                terms.push(Term { dim: d, coeff: reference.terms[k].coeff });
            },
        }
        k = k + 1;
    }
    assert(terms@ =~= resolved_terms(*reference, nest.dims()));
    proof {
        lemma_array_named(nest.arrays(), reference.array@, 0);
    }
    let array = match nest.find_array(&reference.array) {
        Some(k) => {
            if nest.arrays[k].extent != reference.extent {
                return Err(DomainError::ExtentMismatch);
            }
            k
        },
        None => {
            let k = nest.arrays.len();
            nest.arrays.push(ArrayDecl { name: reference.array.clone(), extent: reference.extent });
            assert(nest.arrays().drop_last() =~= old(nest).arrays());
            k
        },
    };
    nest.accesses.push(Access { array, index: Affine { constant: reference.constant, terms } });
    proof {
        let before = old(nest).accesses();
        let after = nest.accesses();
        let n = before.len() as int;
        assert(after.drop_last() =~= before);
        let resolved = after[n].index.terms@;
        assert forall|k: int| 0 <= k < resolved.len() implies (#[trigger] resolved[k]).dim
            < nest.dims().len() by {
            lemma_loop_named(nest.dims(), reference.terms@[k].var@, 0);
        }
        assert forall|a: int| 0 <= a < after.len() implies (#[trigger] after[a]).index.reads_below(
            nest.dims().len(),
        ) && after[a].array < nest.arrays().len() by {
            if a < n {
                assert(after[a] == before[a]);
            }
        }
        let arrays = nest.arrays();
        assert forall|i: int, j: int| 0 <= i < j < arrays.len() implies (#[trigger] arrays[i]).name@
            != (#[trigger] arrays[j]).name@ by {
            if j < old(nest).arrays().len() {
                assert(arrays[i] == old(nest).arrays()[i]);
                assert(arrays[j] == old(nest).arrays()[j]);
            } else {
                assert(arrays[i] == old(nest).arrays()[i]);
            }
        }
    }
    Ok(())
}

} // verus!
