//! The structure of a nest as text, for reading before a long trace.
//!
//! One line per loop, `for i in 0..32 step 1`, each indented two spaces
//! more than the loop around it, then one line per access of the body,
//! `a[0 + 32*i + 1*k]`.

use crate::affine::Affine;
use crate::nest::{Access, ArrayDecl, LoopDim, LoopNest};
use vstd::prelude::*;
use vstd::string::StringExecFns;

verus! {

/// The decimal digit `d`.
pub open spec fn digit(d: int) -> Seq<char> {
    if d == 0 {
        "0"@
    } else if d == 1 {
        "1"@
    } else if d == 2 {
        "2"@
    } else if d == 3 {
        "3"@
    } else if d == 4 {
        "4"@
    } else if d == 5 {
        "5"@
    } else if d == 6 {
        "6"@
    } else if d == 7 {
        "7"@
    } else if d == 8 {
        "8"@
    } else {
        "9"@
    }
}

/// The natural number `n` in decimal, without leading zeros.
pub open spec fn natural(n: nat) -> Seq<char>
    decreases n,
{
    if n < 10 {
        digit(n as int)
    } else {
        natural(n / 10) + digit((n % 10) as int)
    }
}

/// The integer `n` in decimal, with a minus sign where it is negative.
pub open spec fn integer(n: int) -> Seq<char> {
    if n < 0 {
        "-"@ + natural((-n) as nat)
    } else {
        natural(n as nat)
    }
}

/// `levels` times two spaces.
pub open spec fn indentation(levels: nat) -> Seq<char>
    decreases levels,
{
    if levels == 0 {
        Seq::empty()
    } else {
        indentation((levels - 1) as nat) + "  "@
    }
}

/// The first `k` terms of `e`, each as ` + coefficient*name`.
pub open spec fn terms_text(e: Affine, dims: Seq<LoopDim>, k: int) -> Seq<char>
    decreases k,
{
    if k <= 0 {
        Seq::empty()
    } else {
        terms_text(e, dims, k - 1) + " + "@ + integer(e.terms@[k - 1].coeff as int) + "*"@
            + dims[e.terms@[k - 1].dim as int].name@
    }
}

/// The expression `e` over the loops `dims`: its constant, then its terms.
pub open spec fn affine_text(e: Affine, dims: Seq<LoopDim>) -> Seq<char> {
    integer(e.constant as int) + terms_text(e, dims, e.terms@.len() as int)
}

/// The line of the loop at depth `d`.
pub open spec fn loop_text(dims: Seq<LoopDim>, d: int, indent: nat) -> Seq<char> {
    indentation(indent) + indentation(d as nat) + "for "@ + dims[d].name@ + " in "@ + affine_text(
        dims[d].lower,
        dims,
    ) + ".."@ + affine_text(dims[d].upper, dims) + " step "@ + integer(dims[d].step as int)
        + "\n"@
}

/// The line of one access of the body.
pub open spec fn access_text(
    dims: Seq<LoopDim>,
    arrays: Seq<ArrayDecl>,
    access: Access,
    indent: nat,
) -> Seq<char> {
    indentation(indent) + indentation(dims.len()) + arrays[access.array as int].name@ + "["@
        + affine_text(access.index, dims) + "]\n"@
}

/// The lines of the first `k` loops.
pub open spec fn loops_text(dims: Seq<LoopDim>, k: int, indent: nat) -> Seq<char>
    decreases k,
{
    if k <= 0 {
        Seq::empty()
    } else {
        loops_text(dims, k - 1, indent) + loop_text(dims, k - 1, indent)
    }
}

/// The lines of the first `k` accesses of the body.
pub open spec fn body_text(nest: LoopNest, k: int, indent: nat) -> Seq<char>
    decreases k,
{
    if k <= 0 {
        Seq::empty()
    } else {
        body_text(nest, k - 1, indent) + access_text(
            nest.dims(),
            nest.arrays(),
            nest.accesses()[k - 1],
            indent,
        )
    }
}

/// The structure of the nest: its loops, outermost first, then the
/// accesses of its body.
pub open spec fn structure_text(nest: LoopNest, indent: nat) -> Seq<char> {
    loops_text(nest.dims(), nest.dims().len() as int, indent) + body_text(
        nest,
        nest.accesses().len() as int,
        indent,
    )
}

fn digit_str(d: u64) -> (s: &'static str)
    requires
        d < 10,
    ensures
        s@ == digit(d as int),
{
    if d == 0 {
        "0"
    } else if d == 1 {
        "1"
    } else if d == 2 {
        "2"
    } else if d == 3 {
        "3"
    } else if d == 4 {
        "4"
    } else if d == 5 {
        "5"
    } else if d == 6 {
        "6"
    } else if d == 7 {
        "7"
    } else if d == 8 {
        "8"
    } else {
        "9"
    }
}

fn push_natural(out: &mut String, n: u64)
    ensures
        final(out)@ == old(out)@ + natural(n as nat),
    decreases n,
{
    if n >= 10 {
        push_natural(out, n / 10);
    }
    out.append(digit_str(n % 10));
    assert(out@ =~= old(out)@ + natural(n as nat));
}

fn push_integer(out: &mut String, n: i64)
    ensures
        final(out)@ == old(out)@ + integer(n as int),
{
    if n < 0 {
        out.append("-");
        let magnitude: u64 = if n == i64::MIN {
            0x8000_0000_0000_0000
        } else {
            (-n) as u64
        };
        push_natural(out, magnitude);
    } else {
        push_natural(out, n as u64);
    }
    assert(out@ =~= old(out)@ + integer(n as int));
}

fn push_indentation(out: &mut String, levels: usize)
    ensures
        final(out)@ == old(out)@ + indentation(levels as nat),
{
    let mut i: usize = 0;
    assert(out@ =~= old(out)@ + indentation(0));
    while i < levels
        invariant
            i <= levels,
            out@ == old(out)@ + indentation(i as nat),
        decreases levels - i,
    {
        out.append("  ");
        i = i + 1;
        assert(out@ =~= old(out)@ + indentation(i as nat));
    }
}

fn push_affine(out: &mut String, e: &Affine, nest: &LoopNest)
    requires
        e.reads_below(nest.dims().len()),
    ensures
        final(out)@ == old(out)@ + affine_text(*e, nest.dims()),
{
    let ghost dims = nest.dims();
    push_integer(out, e.constant);
    let mut k: usize = 0;
    assert(out@ =~= old(out)@ + integer(e.constant as int) + terms_text(*e, dims, 0));
    while k < e.terms.len()
        invariant
            k <= e.terms@.len(),
            dims == nest.dims(),
            e.reads_below(dims.len()),
            out@ == old(out)@ + integer(e.constant as int) + terms_text(*e, dims, k as int),
        decreases e.terms@.len() - k,
    {
        let term = e.terms[k];
        out.append(" + ");
        push_integer(out, term.coeff);
        out.append("*");
        out.append(nest.dim(term.dim).name.as_str());
        k = k + 1;
        assert(out@ =~= old(out)@ + integer(e.constant as int) + terms_text(*e, dims, k as int));
    }
    assert(out@ =~= old(out)@ + affine_text(*e, dims));
}

impl LoopNest {
    /// The structure of `nest` as text, every line indented by `indent` levels.
    pub fn structure(&self, indent: usize) -> (text: String)
        requires
            self.wf(),
        ensures
            text@ == structure_text(*self, indent as nat),
    {
        let nest = self;
        let ghost dims = nest.dims();
        let mut out = String::new();
        let mut d: usize = 0;
        assert(out@ =~= loops_text(dims, 0, indent as nat));
        while d < nest.depth()
            invariant
                nest.wf(),
                dims == nest.dims(),
                d <= dims.len(),
                out@ == loops_text(dims, d as int, indent as nat),
            decreases dims.len() - d,
        {
            let ghost before = out@;
            let dim = nest.dim(d);
            assert(dim.fits_depth(d as nat));
            assert(dim.lower.reads_below(dims.len()));
            assert(dim.upper.reads_below(dims.len()));
            push_indentation(&mut out, indent);
            push_indentation(&mut out, d);
            out.append("for ");
            out.append(dim.name.as_str());
            out.append(" in ");
            push_affine(&mut out, &dim.lower, nest);
            out.append("..");
            push_affine(&mut out, &dim.upper, nest);
            out.append(" step ");
            push_integer(&mut out, dim.step);
            out.append("\n");
            assert(out@ =~= before + loop_text(dims, d as int, indent as nat));
            d = d + 1;
        }
        let ghost loops = out@;
        let mut a: usize = 0;
        assert(out@ =~= loops + body_text(*nest, 0, indent as nat));
        while a < nest.access_count()
            invariant
                nest.wf(),
                dims == nest.dims(),
                a <= nest.accesses().len(),
                loops == loops_text(dims, dims.len() as int, indent as nat),
                out@ == loops + body_text(*nest, a as int, indent as nat),
            decreases nest.accesses().len() - a,
        {
            let ghost before = out@;
            let access = nest.access(a);
            push_indentation(&mut out, indent);
            push_indentation(&mut out, nest.depth());
            out.append(nest.array(access.array).name.as_str());
            out.append("[");
            push_affine(&mut out, &access.index, nest);
            out.append("]\n");
            assert(out@ =~= before + access_text(dims, nest.arrays(), *access, indent as nat));
            a = a + 1;
            assert(out@ =~= loops + body_text(*nest, a as int, indent as nat));
        }
        out
    }
}

} // verus!
