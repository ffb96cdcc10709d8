//! Affine expressions over the indices of the enclosing loops.

use vstd::prelude::*;

verus! {

/// One summand: a coefficient times the index of loop `dim`, counted from
/// the outermost loop.
#[derive(Clone, Copy, Debug, PartialEq, Eq)]
pub struct Term {
    pub dim: usize,
    pub coeff: i64,
}

/// A constant plus a sum of terms.
#[derive(Clone, Debug, PartialEq, Eq)]
pub struct Affine {
    pub constant: i64,
    pub terms: Vec<Term>,
}

impl Affine {
    /// The constant plus the first `k` terms, at the iteration point `p`.
    pub open spec fn partial(&self, p: Seq<i64>, k: int) -> int
        decreases k,
    {
        if k <= 0 {
            self.constant as int
        } else {
            self.partial(p, k - 1) + self.terms@[k - 1].coeff * p[self.terms@[k - 1].dim as int]
        }
    }

    /// The value of the expression at the iteration point `p`.
    pub open spec fn value(&self, p: Seq<i64>) -> int {
        self.partial(p, self.terms@.len() as int)
    }

    /// Every term reads a loop index that exists at nesting depth `depth`.
    pub open spec fn reads_below(&self, depth: nat) -> bool {
        forall|k: int| 0 <= k < self.terms@.len() ==> (#[trigger] self.terms@[k]).dim < depth
    }

    /// Summed term by term, the expression stays in the 64-bit range at `p`.
    pub open spec fn fits(&self, p: Seq<i64>) -> bool {
        forall|k: int|
            0 <= k <= self.terms@.len() ==> i64::MIN <= #[trigger] self.partial(p, k) <= i64::MAX
    }

    /// The expression that is constantly `c`.
    pub fn constant(c: i64) -> (e: Affine)
        ensures
            e.constant == c,
            e.terms@ == Seq::<Term>::empty(),
            forall|p: Seq<i64>| e.fits(p) && #[trigger] e.value(p) == c,
            e.reads_below(0),
    {
        let e = Affine { constant: c, terms: Vec::new() };
        assert forall|p: Seq<i64>| e.fits(p) && #[trigger] e.value(p) == c by {
            assert forall|k: int| 0 <= k <= e.terms@.len() implies i64::MIN <= #[trigger] e.partial(
                p,
                k,
            ) <= i64::MAX by {}
        }
        e
    }

    /// The expression `c + coeff * index(dim)`.
    pub fn linear(c: i64, dim: usize, coeff: i64) -> (e: Affine)
        ensures
            e.constant == c,
            e.terms@ == seq![Term { dim, coeff }],
            forall|p: Seq<i64>| #[trigger] e.value(p) == c + coeff * p[dim as int],
            e.reads_below((dim + 1) as nat),
    {
        let mut terms: Vec<Term> = Vec::new();
        terms.push(Term { dim, coeff });
        let e = Affine { constant: c, terms };
        assert forall|p: Seq<i64>| #[trigger] e.value(p) == c + coeff * p[dim as int] by {
            assert(e.partial(p, 1) == e.partial(p, 0) + e.terms@[0].coeff * p[e.terms@[0].dim as int]);
        }
        e
    }

    /// Evaluates the expression at `p` with checked arithmetic: `None` as
    /// soon as a partial sum leaves the 64-bit range.
    pub fn eval(&self, p: &Vec<i64>) -> (r: Option<i64>)
        requires
            self.reads_below(p@.len()),
        ensures
            r.is_some() <==> self.fits(p@),
            r matches Some(v) ==> v == self.value(p@),
    {
        let mut acc: i64 = self.constant;
        let mut k: usize = 0;
        while k < self.terms.len()
            invariant
                k <= self.terms@.len(),
                self.reads_below(p@.len()),
                acc == self.partial(p@, k as int),
                forall|j: int| 0 <= j <= k ==> i64::MIN <= #[trigger] self.partial(p@, j) <= i64::MAX,
            decreases self.terms@.len() - k,
        {
            let term = self.terms[k];
            let x = p[term.dim];
            assert(-0x4000_0000_0000_0000_0000_0000_0000_0000 <= term.coeff * x
                <= 0x4000_0000_0000_0000_0000_0000_0000_0000) by (nonlinear_arith)
                requires
                    -0x8000_0000_0000_0000 <= term.coeff < 0x8000_0000_0000_0000,
                    -0x8000_0000_0000_0000 <= x < 0x8000_0000_0000_0000,
            ;
            let product: i128 = (term.coeff as i128) * (x as i128);
            let sum: i128 = (acc as i128) + product;
            if sum < i64::MIN as i128 || sum > i64::MAX as i128 {
                assert(self.partial(p@, k + 1) == sum);
                return None;
            }
            acc = sum as i64;
            k = k + 1;
        }
        Some(acc)
    }
}

} // verus!
