//! From an access at an iteration point to a byte address and a cache line.
//!
//! The arrays of a nest stand one after the other in the address space,
//! each beginning on a cache line boundary, so that no cache line holds
//! elements of two arrays.

use crate::nest::{Access, ArrayDecl, LoopNest};
use vstd::prelude::*;

verus! {

/// The number of cache lines that `bytes` bytes take.
pub open spec fn lines_for(bytes: int, cache_line_size: u64) -> int {
    (bytes + cache_line_size - 1) / (cache_line_size as int)
}

/// The cache line at which array `k` begins; for `k == arrays.len()`, the
/// line behind the last array.
pub open spec fn array_line(
    arrays: Seq<ArrayDecl>,
    k: int,
    element_size: u64,
    cache_line_size: u64,
) -> int
    decreases k,
{
    if k <= 0 {
        0
    } else {
        array_line(arrays, k - 1, element_size, cache_line_size) + lines_for(
            arrays[k - 1].extent * element_size,
            cache_line_size,
        )
    }
}

/// The byte address at which array `k` begins; for `k == arrays.len()`,
/// the address behind the last array.
pub open spec fn array_base(
    arrays: Seq<ArrayDecl>,
    k: int,
    element_size: u64,
    cache_line_size: u64,
) -> int {
    cache_line_size * array_line(arrays, k, element_size, cache_line_size)
}

/// The arrays fit the 64-bit address space.
pub open spec fn arrays_fit(arrays: Seq<ArrayDecl>, element_size: u64, cache_line_size: u64) -> bool {
    array_base(arrays, arrays.len() as int, element_size, cache_line_size) <= u64::MAX
}

/// The byte address that `access` touches at the iteration point `p`.
pub open spec fn address(
    arrays: Seq<ArrayDecl>,
    access: Access,
    p: Seq<i64>,
    element_size: u64,
    cache_line_size: u64,
) -> int {
    array_base(arrays, access.array as int, element_size, cache_line_size) + access.index.value(p)
        * element_size
}

/// The access can be made at `p`: its index stays in range while it is
/// summed, and names an element of the array.
pub open spec fn access_fits(arrays: Seq<ArrayDecl>, access: Access, p: Seq<i64>) -> bool {
    &&& access.index.fits(p)
    &&& 0 <= access.index.value(p) < arrays[access.array as int].extent
}

/// The cache line that holds `address`.
pub open spec fn line_holding(address: int, cache_line_size: u64) -> int {
    address / (cache_line_size as int)
}

/// The cache line that `access` touches at the iteration point `p`.
pub open spec fn line_of(
    arrays: Seq<ArrayDecl>,
    access: Access,
    p: Seq<i64>,
    element_size: u64,
    cache_line_size: u64,
) -> u64 {
    line_holding(address(arrays, access, p, element_size, cache_line_size), cache_line_size) as u64
}

/// Whole cache lines hold the bytes, with less than one line to spare.
pub proof fn lemma_lines_for(bytes: int, cache_line_size: u64)
    requires
        0 <= bytes,
        cache_line_size > 0,
    ensures
        0 <= lines_for(bytes, cache_line_size),
        bytes <= cache_line_size * lines_for(bytes, cache_line_size) < bytes + cache_line_size,
{
    let c = cache_line_size as int;
    let y = bytes + c - 1;
    assert(y == c * (y / c) + y % c && 0 <= y % c < c) by (nonlinear_arith)
        requires
            c > 0,
    ;
    assert(0 <= y / c) by (nonlinear_arith)
        requires
            c > 0,
            0 <= y,
            y == c * (y / c) + y % c,
            0 <= y % c < c,
    ;
}

/// Arrays begin on cache line boundaries, each behind the end of the one
/// before it.
pub proof fn lemma_array_base(
    arrays: Seq<ArrayDecl>,
    j: int,
    k: int,
    element_size: u64,
    cache_line_size: u64,
)
    requires
        0 <= j <= k,
        cache_line_size > 0,
    ensures
        0 <= array_line(arrays, j, element_size, cache_line_size) <= array_line(
            arrays,
            k,
            element_size,
            cache_line_size,
        ),
        0 <= array_base(arrays, j, element_size, cache_line_size) <= array_base(
            arrays,
            k,
            element_size,
            cache_line_size,
        ),
        j < k ==> array_base(arrays, j, element_size, cache_line_size) + arrays[j].extent
            * element_size <= array_base(arrays, k, element_size, cache_line_size),
    decreases k,
{
    let c = cache_line_size as int;
    if k > 0 {
        let bytes = arrays[k - 1].extent * element_size;
        assert(0 <= bytes) by (nonlinear_arith)
            requires
                bytes == arrays[k - 1].extent * element_size,
        ;
        lemma_lines_for(bytes, cache_line_size);
        let before = array_line(arrays, k - 1, element_size, cache_line_size);
        let lines = lines_for(bytes, cache_line_size);
        if j < k {
            lemma_array_base(arrays, j, k - 1, element_size, cache_line_size);
        } else {
            lemma_array_base(arrays, k - 1, k - 1, element_size, cache_line_size);
        }
        assert(c * (before + lines) == c * before + c * lines) by (nonlinear_arith);
        assert(0 <= c * before) by (nonlinear_arith)
            requires
                c > 0,
                0 <= before,
        ;
    } else {
        assert(c * 0 == 0);
    }
}

/// No cache line holds elements of two arrays: accesses to different
/// arrays touch different lines, at whatever points they are made.
#[verifier::rlimit(30)]
pub proof fn lemma_arrays_apart(
    arrays: Seq<ArrayDecl>,
    first: Access,
    p: Seq<i64>,
    second: Access,
    q: Seq<i64>,
    element_size: u64,
    cache_line_size: u64,
)
    requires
        element_size > 0,
        cache_line_size > 0,
        first.array < second.array < arrays.len(),
        access_fits(arrays, first, p),
        access_fits(arrays, second, q),
    ensures
        0 <= line_holding(address(arrays, first, p, element_size, cache_line_size), cache_line_size)
            < line_holding(
            address(arrays, second, q, element_size, cache_line_size),
            cache_line_size,
        ),
{
    let c = cache_line_size as int;
    let e = element_size as int;
    let a = first.array as int;
    let b = second.array as int;
    lemma_array_base(arrays, a, a + 1, element_size, cache_line_size);
    lemma_array_base(arrays, a + 1, b, element_size, cache_line_size);
    lemma_array_base(arrays, b, b, element_size, cache_line_size);
    let x = address(arrays, first, p, element_size, cache_line_size);
    let y = address(arrays, second, q, element_size, cache_line_size);
    let edge = array_line(arrays, b, element_size, cache_line_size);
    let i = first.index.value(p);
    let j = second.index.value(q);
    assert(0 <= i * e && i * e + e <= arrays[a].extent * e) by (nonlinear_arith)
        requires
            0 <= i < arrays[a].extent,
            e > 0,
    ;
    assert(0 <= j * e) by (nonlinear_arith)
        requires
            0 <= j,
            e > 0,
    ;
    assert(x < c * edge <= y);
    vstd::arithmetic::div_mod::lemma_multiply_divide_lt(x, c, edge);
    vstd::arithmetic::div_mod::lemma_div_is_ordered(c * edge, y, c);
    vstd::arithmetic::div_mod::lemma_div_multiples_vanish(edge, c);
    vstd::arithmetic::div_mod::lemma_div_is_ordered(0, x, c);
}

/// Where the arrays of a nest begin, for one element size and one cache
/// line size.
pub struct Layout {
    bases: Vec<u64>,
    element_size: u64,
    cache_line_size: u64,
}

impl Layout {
    /// The layout places `arrays` for these sizes.
    pub closed spec fn places(
        &self,
        arrays: Seq<ArrayDecl>,
        element_size: u64,
        cache_line_size: u64,
    ) -> bool {
        &&& self.element_size == element_size
        &&& self.cache_line_size == cache_line_size
        &&& element_size > 0
        &&& cache_line_size > 0
        &&& arrays_fit(arrays, element_size, cache_line_size)
        &&& self.bases@.len() == arrays.len()
        &&& forall|k: int|
            0 <= k < arrays.len() ==> #[trigger] self.bases@[k] == array_base(
                arrays,
                k,
                element_size,
                cache_line_size,
            )
    }

    pub proof fn lemma_places(&self, arrays: Seq<ArrayDecl>)
        requires
            self.places(arrays, self.element_size(), self.cache_line_size()),
        ensures
            self.element_size() > 0,
            self.cache_line_size() > 0,
            arrays_fit(arrays, self.element_size(), self.cache_line_size()),
    {
    }

    /// Places the arrays of `nest`, or returns `None` where they do not
    /// fit the address space.
    #[verifier::rlimit(30)]
    pub fn place(nest: &LoopNest, element_size: u64, cache_line_size: u64) -> (r: Option<Layout>)
        requires
            element_size > 0,
            cache_line_size > 0,
        ensures
            r.is_some() <==> arrays_fit(nest.arrays(), element_size, cache_line_size),
            r matches Some(layout) ==> layout.places(nest.arrays(), element_size, cache_line_size)
                && layout.element_size() == element_size && layout.cache_line_size()
                == cache_line_size,
    {
        let ghost arrays = nest.arrays();
        let n = nest.array_count();
        let mut bases: Vec<u64> = Vec::new();
        let mut next: u64 = 0;
        let mut k: usize = 0;
        while k < n
            invariant
                k <= n,
                n == arrays.len(),
                arrays == nest.arrays(),
                element_size > 0,
                cache_line_size > 0,
                bases@.len() == k,
                next == array_base(arrays, k as int, element_size, cache_line_size),
                forall|j: int|
                    0 <= j < k ==> #[trigger] bases@[j] == array_base(
                        arrays,
                        j,
                        element_size,
                        cache_line_size,
                    ),
            decreases n - k,
        {
            let extent = nest.array(k).extent;
            assert(0 <= extent * element_size <= 0xffff_ffff_ffff_ffff * 0xffff_ffff_ffff_ffff)
                by (nonlinear_arith)
                requires
                    0 <= extent <= 0xffff_ffff_ffff_ffff,
                    0 <= element_size <= 0xffff_ffff_ffff_ffff,
            ;
            let bytes: u128 = (extent as u128) * (element_size as u128);
            proof {
                lemma_lines_for(bytes as int, cache_line_size);
                lemma_array_base(arrays, k + 1, n as int, element_size, cache_line_size);
                let c = cache_line_size as int;
                let before = array_line(arrays, k as int, element_size, cache_line_size);
                let more = lines_for(bytes as int, cache_line_size);
                assert(c * (before + more) == c * before + c * more) by (nonlinear_arith);
            }
            let lines: u128 = (bytes + (cache_line_size as u128 - 1)) / (cache_line_size as u128);
            assert(lines == lines_for(bytes as int, cache_line_size));
            assert(lines * cache_line_size == cache_line_size * lines) by (nonlinear_arith);
            let pad: u128 = lines * (cache_line_size as u128);
            let end: u128 = next as u128 + pad;
            if end > u64::MAX as u128 {
                return None;
            }
            bases.push(next);
            next = end as u64;
            k = k + 1;
        }
        Some(Layout { bases, element_size, cache_line_size })
    }

    /// The byte address that `access` touches at the iteration point `p`,
    /// or `None` where the access cannot be made.
    pub fn byte_address(&self, nest: &LoopNest, access: &Access, p: &Vec<i64>) -> (r: Option<u64>)
        requires
            self.places(nest.arrays(), self.element_size(), self.cache_line_size()),
            access.array < nest.arrays().len(),
            access.index.reads_below(p@.len()),
        ensures
            r.is_some() <==> access_fits(nest.arrays(), *access, p@),
            r matches Some(a) ==> a == address(
                nest.arrays(),
                *access,
                p@,
                self.element_size(),
                self.cache_line_size(),
            ),
    {
        let offset = match access.index.eval(p) {
            None => {
                return None;
            },
            Some(offset) => offset,
        };
        let extent = nest.array(access.array).extent;
        if offset < 0 || offset as u64 >= extent {
            return None;
        }
        let base = self.bases[access.array];
        proof {
            let arrays = nest.arrays();
            let k = access.array as int;
            lemma_array_base(arrays, k, k + 1, self.element_size, self.cache_line_size);
            lemma_array_base(
                arrays,
                k + 1,
                arrays.len() as int,
                self.element_size,
                self.cache_line_size,
            );
            assert(0 <= offset * self.element_size <= extent * self.element_size)
                by (nonlinear_arith)
                requires
                    0 <= offset < extent,
                    self.element_size >= 0,
            ;
        }
        Some(base + (offset as u64) * self.element_size)
    }

    /// The cache line that holds the byte at `address`.
    pub fn line(&self, address: u64) -> (line: u64)
        requires
            self.cache_line_size() > 0,
        ensures
            line == line_holding(address as int, self.cache_line_size()),
    {
        cache_line(address, self.cache_line_size)
    }

    pub closed spec fn element_size(&self) -> u64 {
        self.element_size
    }

    pub closed spec fn cache_line_size(&self) -> u64 {
        self.cache_line_size
    }
}

/// The cache line that holds the byte at `address`.
pub fn cache_line(address: u64, cache_line_size: u64) -> (line: u64)
    requires
        cache_line_size > 0,
    ensures
        line == line_holding(address as int, cache_line_size),
{
    address / cache_line_size
}

} // verus!
