//! Table interpolation: an accelerated index search and a piecewise-linear
//! evaluator over a strictly increasing sample grid.
//!
//! The evaluator serves the root solvers — a bracketing or polishing solver
//! can be driven by samples of an interpolated function — but is otherwise
//! independent.  A query outside the tabulated range is reported as a
//! `DomainError` rather than answered; a query exactly at a sample point
//! returns that sample's value.

use vstd::prelude::*;
use vstd::arithmetic::div_mod::{lemma_div_is_ordered, lemma_div_pos_is_pos};
use crate::arith::{div_trunc_i128, in_i64, lemma_div_le_factor, lemma_mul_bounds, lemma_tdiv_exact, tdiv};
use crate::error::SolverError;

verus! {

/// Whether a sample grid is strictly monotonically increasing.
pub open spec fn strictly_increasing(s: Seq<i64>) -> bool {
    forall|i: int, j: int| 0 <= i < j < s.len() ==> s[i] < s[j]
}

/// Whether a query point lies within the tabulated range.
pub open spec fn in_table(xa: Seq<i64>, x: int) -> bool
    recommends
        xa.len() >= 1,
{
    xa[0] <= x <= xa[xa.len() - 1]
}

/// Whether segment `i` answers the query `x`: the segment starts at or
/// below `x`, and `x` lies strictly below its right end, except that the
/// last segment also answers a query exactly at the grid's right end.
pub open spec fn seg_contains(xa: Seq<i64>, i: int, x: int) -> bool {
    &&& 0 <= i < xa.len() - 1
    &&& xa[i] <= x
    &&& (x < xa[i + 1] || (i == xa.len() - 2 && x <= xa[i + 1]))
}

/// The linear interpolant of segment `i` at `x`, rounded toward the left
/// sample.
pub open spec fn interp_on_seg(xa: Seq<i64>, ya: Seq<i64>, i: int, x: int) -> int
    recommends
        0 <= i < xa.len() - 1,
        xa.len() == ya.len(),
        xa[i] < xa[i + 1],
{
    ya[i] + tdiv((x - xa[i]) * (ya[i + 1] - ya[i]), xa[i + 1] - xa[i])
}

/// The slope of segment `i`, rounded toward zero.
pub open spec fn deriv_on_seg(xa: Seq<i64>, ya: Seq<i64>, i: int) -> int
    recommends
        0 <= i < xa.len() - 1,
        xa.len() == ya.len(),
        xa[i] < xa[i + 1],
{
    tdiv(ya[i + 1] - ya[i], xa[i + 1] - xa[i])
}

/// At most one segment answers a query.
pub proof fn lemma_seg_unique(xa: Seq<i64>, x: int, i: int, j: int)
    requires
        strictly_increasing(xa),
        seg_contains(xa, i, x),
        seg_contains(xa, j, x),
    ensures
        i == j,
{
    if i < j {
        assert(xa[i + 1] <= xa[j]);
    }
    if j < i {
        assert(xa[j + 1] <= xa[i]);
    }
}

/// Querying exactly at a sample point returns that sample's value: every
/// segment that answers the query `xa[k]` interpolates it to `ya[k]`.
pub proof fn lemma_eval_at_sample(xa: Seq<i64>, ya: Seq<i64>, k: int, i: int)
    requires
        strictly_increasing(xa),
        xa.len() == ya.len(),
        0 <= k < xa.len(),
        seg_contains(xa, i, xa[k] as int),
    ensures
        interp_on_seg(xa, ya, i, xa[k] as int) == ya[k],
{
    let x = xa[k] as int;
    if k < i {
        assert(xa[k] < xa[i]);
        assert(false);
    }
    if k > i + 1 {
        assert(xa[i + 1] < xa[k]);
        assert(false);
    }
    let dx = xa[i + 1] - xa[i];
    let dy = ya[i + 1] - ya[i];
    if k == i {
        assert((x - xa[i]) * dy == 0) by (nonlinear_arith)
            requires
                x - xa[i] == 0,
        ;
        vstd::arithmetic::div_mod::lemma_div_basics(dx);
        vstd::arithmetic::div_mod::lemma_div_of0(dx);
    } else {
        assert(xa[i] < xa[i + 1]);
        assert((x - xa[i]) * dy == dx * dy) by (nonlinear_arith)
            requires
                x - xa[i] == dx,
        ;
        lemma_tdiv_exact(dx, dy);
    }
}

/// The interpolated value lies between the segment's two sample values.
pub proof fn lemma_interp_bounded(xa: Seq<i64>, ya: Seq<i64>, i: int, x: int)
    requires
        strictly_increasing(xa),
        xa.len() == ya.len(),
        seg_contains(xa, i, x),
    ensures
        ya[i] <= ya[i + 1] ==> ya[i] <= interp_on_seg(xa, ya, i, x) <= ya[i + 1],
        ya[i + 1] <= ya[i] ==> ya[i + 1] <= interp_on_seg(xa, ya, i, x) <= ya[i],
{
    assert(xa[i] < xa[i + 1]);
    let dx = xa[i + 1] - xa[i];
    let dy = ya[i + 1] - ya[i];
    let t = x - xa[i];
    if dy >= 0 {
        assert(0 <= t * dy <= dx * dy) by (nonlinear_arith)
            requires
                0 <= t <= dx,
                0 <= dy,
        ;
        lemma_div_pos_is_pos(t * dy, dx);
        lemma_div_le_factor(t * dy, dx, dy);
    } else {
        assert(0 <= t * (-dy) <= dx * (-dy) && -(t * dy) == t * (-dy)) by (nonlinear_arith)
            requires
                0 <= t <= dx,
                dy < 0,
        ;
        lemma_div_pos_is_pos(t * (-dy), dx);
        lemma_div_le_factor(t * (-dy), dx, -dy);
    }
}

/// Segments answer ordered queries in order.
pub proof fn lemma_seg_ordered(xa: Seq<i64>, a: int, b: int, ia: int, ib: int)
    requires
        strictly_increasing(xa),
        seg_contains(xa, ia, a),
        seg_contains(xa, ib, b),
        a <= b,
    ensures
        ia <= ib,
{
    if ib < ia {
        assert(xa[ib + 1] <= xa[ia]);
    }
}

/// Twice the trapezoid-rule integral over the full segments `i` to
/// `j - 1`.
pub open spec fn trap2_sum(xa: Seq<i64>, ya: Seq<i64>, i: int, j: int) -> int
    recommends
        0 <= i,
        j < xa.len(),
        xa.len() == ya.len(),
    decreases j - i,
{
    if i >= j {
        0
    } else {
        trap2_sum(xa, ya, i, j - 1) + (xa[j] - xa[j - 1]) * (ya[j - 1] + ya[j])
    }
}

/// Twice the trapezoid-rule integral of the interpolated function from `a`
/// to `b`, with `ia` and `ib` the segments answering the two endpoints:
/// partial trapezoids at both ends around the full segments between, the
/// partial ends standing on the interpolated values.
pub open spec fn integ2_of(xa: Seq<i64>, ya: Seq<i64>, a: int, b: int, ia: int, ib: int) -> int
    recommends
        seg_contains(xa, ia, a),
        seg_contains(xa, ib, b),
        xa.len() == ya.len(),
{
    if ia == ib {
        (b - a) * (interp_on_seg(xa, ya, ia, a) + interp_on_seg(xa, ya, ib, b))
    } else {
        (xa[ia + 1] - a) * (interp_on_seg(xa, ya, ia, a) + ya[ia + 1]) + trap2_sum(
            xa,
            ya,
            ia + 1,
            ib,
        ) + (b - xa[ib]) * (ya[ib] + interp_on_seg(xa, ya, ib, b))
    }
}

/// A saturating counter bump.
pub open spec fn sat_inc(c: int) -> int {
    if c < u64::MAX {
        c + 1
    } else {
        c
    }
}

/// Whether the accelerator's cached segment answers the query directly.
pub open spec fn accel_hit(xa: Seq<i64>, cache: int, x: int) -> bool {
    &&& 0 <= cache < xa.len() - 1
    &&& xa[cache] <= x
    &&& x < xa[cache + 1]
}

/// A stateful search accelerator: a cache of the segment index found by the
/// last lookup, used to speed up repeated nearby queries, together with hit
/// and miss counters.
pub struct InterpAccel {
    /// Index of the segment found by the most recent lookup.
    pub cache: usize,
    /// Number of lookups answered from the cached segment.
    pub hit_count: u64,
    /// Number of lookups that fell back to a binary search.
    pub miss_count: u64,
}

impl InterpAccel {
    /// A fresh accelerator, caching the first segment.
    pub fn new() -> (a: InterpAccel)
        ensures
            a.cache == 0,
            a.hit_count == 0,
            a.miss_count == 0,
    {
        InterpAccel { cache: 0, hit_count: 0, miss_count: 0 }
    }
}

/// Returns the index `i` in `[index_lo, index_hi)` such that
/// `x_array[i] <= x < x_array[i+1]`, clamped to the search range's first or
/// last segment when `x` lies outside it.
pub fn bsearch(x_array: &Vec<i64>, x: i64, index_lo: usize, index_hi: usize) -> (r: usize)
    requires
        index_lo < index_hi,
        index_hi < x_array.len(),
        strictly_increasing(x_array@),
    ensures
        index_lo <= r < index_hi,
        (x_array@[index_lo as int] <= x && x < x_array@[index_hi as int]) ==> (x_array@[r as int]
            <= x && x < x_array@[r as int + 1]),
        x < x_array@[index_lo as int] ==> r == index_lo,
        x >= x_array@[index_hi as int] ==> r == index_hi - 1,
{
    let mut lo = index_lo;
    let mut hi = index_hi;
    while hi - lo > 1
        invariant
            index_lo <= lo < hi <= index_hi,
            index_hi < x_array.len(),
            strictly_increasing(x_array@),
            x_array@[lo as int] <= x || (x < x_array@[index_lo as int] && lo == index_lo),
            x < x_array@[hi as int] || (x >= x_array@[index_hi as int] && hi == index_hi),
        decreases hi - lo,
    {
        let mid = lo + (hi - lo) / 2;
        assert(lo < mid < hi);
        if x >= x_array[mid] {
            lo = mid;
        } else {
            hi = mid;
        }
    }
    proof {
        if x < x_array@[index_lo as int] {
            if lo > index_lo {
                assert(x_array@[index_lo as int] <= x_array@[lo as int]);
                assert(false);
            }
        }
        if x >= x_array@[index_hi as int] {
            if hi < index_hi {
                assert(x_array@[hi as int] <= x_array@[index_hi as int]);
                assert(false);
            }
        }
    }
    lo
}

/// Looks up the segment answering `x`, trying the accelerator's cached
/// segment first and falling back to a binary search on a miss; the cache
/// and the hit or miss counter are updated accordingly.
pub fn accel_find(acc: &mut InterpAccel, xa: &Vec<i64>, x: i64) -> (i: usize)
    requires
        xa.len() >= 2,
        strictly_increasing(xa@),
        old(acc).cache < xa.len() - 1,
        in_table(xa@, x as int),
    ensures
        seg_contains(xa@, i as int, x as int),
        final(acc).cache == i,
        accel_hit(xa@, old(acc).cache as int, x as int) ==> {
            &&& i == old(acc).cache
            &&& final(acc).hit_count == sat_inc(old(acc).hit_count as int)
            &&& final(acc).miss_count == old(acc).miss_count
        },
        !accel_hit(xa@, old(acc).cache as int, x as int) ==> {
            &&& final(acc).miss_count == sat_inc(old(acc).miss_count as int)
            &&& final(acc).hit_count == old(acc).hit_count
        },
{
    let cache = acc.cache;
    let n = xa.len();
    if x < xa[cache] {
        proof {
            assert(xa@[0] <= x);
            assert(cache != 0);
        }
        let r = bsearch(xa, x, 0, cache);
        acc.cache = r;
        if acc.miss_count < u64::MAX {
            acc.miss_count = acc.miss_count + 1;
        }
        r
    } else if x >= xa[cache + 1] {
        proof {
            assert(x <= xa@[n as int - 1]);
            if cache + 1 == n - 1 {
                assert(x == xa@[n as int - 1]);
            }
        }
        let r = if cache + 1 < n - 1 {
            bsearch(xa, x, cache + 1, n - 1)
        } else {
            cache
        };
        proof {
            assert(xa@[n as int - 2] < xa@[n as int - 1]);
            if cache + 1 < n - 1 && x >= xa@[n as int - 1] {
                assert(x == xa@[n as int - 1]);
            }
        }
        acc.cache = r;
        if acc.miss_count < u64::MAX {
            acc.miss_count = acc.miss_count + 1;
        }
        r
    } else {
        if acc.hit_count < u64::MAX {
            acc.hit_count = acc.hit_count + 1;
        }
        cache
    }
}

/// The interpolated value of segment `i` at the in-segment query `x`,
/// computed without overflow.  The result lies between the segment's two
/// sample values.
fn interp_value(xa: &Vec<i64>, ya: &Vec<i64>, i: usize, x: i64) -> (y: i64)
    requires
        xa.len() == ya.len(),
        strictly_increasing(xa@),
        seg_contains(xa@, i as int, x as int),
    ensures
        y as int == interp_on_seg(xa@, ya@, i as int, x as int),
{
    proof {
        assert(xa@[i as int] < xa@[i as int + 1]);
    }
    let xi = xa[i];
    let xi1 = xa[i + 1];
    let yi = ya[i];
    let yi1 = ya[i + 1];
    let dx: i128 = (xi1 as i128) - (xi as i128);
    let t: u128 = (((x as i128) - (xi as i128)) as u128);
    let dy: i128 = (yi1 as i128) - (yi as i128);
    let dym: u128 = if dy >= 0 {
        dy as u128
    } else {
        ((-dy) as u128)
    };
    proof {
        lemma_mul_bounds(t as int, dym as int, 0xffff_ffff_ffff_ffff, 0xffff_ffff_ffff_ffff);
        assert((t as int) * (dym as int) <= (dx as int) * (dym as int)) by (nonlinear_arith)
            requires
                0 <= t as int <= dx as int,
                0 <= dym as int,
        ;
        lemma_div_pos_is_pos((t as int) * (dym as int), dx as int);
        lemma_div_le_factor((t as int) * (dym as int), dx as int, dym as int);
    }
    let q: u128 = (t * dym) / (dx as u128);
    let y: i128 = if dy >= 0 {
        (yi as i128) + (q as i128)
    } else {
        (yi as i128) - (q as i128)
    };
    proof {
        let ti = t as int;
        let dyi = dy as int;
        if dy >= 0 {
            assert(ti * dyi == ti * (dym as int)) by (nonlinear_arith)
                requires
                    dyi == dym as int,
            ;
        } else {
            assert(ti * dyi == -(ti * (dym as int))) by (nonlinear_arith)
                requires
                    dyi == -(dym as int),
            ;
        }
    }
    (y as i64)
}

/// The interpolated value of `y` at the query point `x`, over the sample
/// grid `xa` and values `ya`, using the accelerator `acc`.  A query outside
/// the tabulated range is reported as `DomainError`, with the accelerator
/// untouched.
pub fn eval_e(xa: &Vec<i64>, ya: &Vec<i64>, x: i64, acc: &mut InterpAccel) -> (r: Result<
    i64,
    SolverError,
>)
    requires
        xa.len() == ya.len(),
        xa.len() >= 2,
        strictly_increasing(xa@),
        old(acc).cache < xa.len() - 1,
    ensures
        r is Err <==> !in_table(xa@, x as int),
        r is Err ==> r == Err::<i64, SolverError>(SolverError::DomainError) && *final(acc) == *old(
            acc,
        ),
        r matches Ok(y) ==> forall|i: int|
            seg_contains(xa@, i, x as int) ==> y as int == interp_on_seg(xa@, ya@, i, x as int),
        final(acc).cache < xa.len() - 1,
        r is Ok ==> seg_contains(xa@, final(acc).cache as int, x as int),
{
    let n = xa.len();
    if x < xa[0] || x > xa[n - 1] {
        return Err(SolverError::DomainError);
    }
    let i = accel_find(acc, xa, x);
    let y = interp_value(xa, ya, i, x);
    proof {
        assert forall|j: int| seg_contains(xa@, j, x as int) implies y as int == interp_on_seg(
            xa@,
            ya@,
            j,
            x as int,
        ) by {
            lemma_seg_unique(xa@, x as int, i as int, j);
        }
    }
    Ok(y)
}

/// The interpolated value at an in-range query point `x`; as
/// [`eval_e`], for callers that have already checked the range.
pub fn eval(xa: &Vec<i64>, ya: &Vec<i64>, x: i64, acc: &mut InterpAccel) -> (y: i64)
    requires
        xa.len() == ya.len(),
        xa.len() >= 2,
        strictly_increasing(xa@),
        old(acc).cache < xa.len() - 1,
        in_table(xa@, x as int),
    ensures
        forall|i: int|
            seg_contains(xa@, i, x as int) ==> y as int == interp_on_seg(xa@, ya@, i, x as int),
        final(acc).cache < xa.len() - 1,
{
    match eval_e(xa, ya, x, acc) {
        Ok(y) => y,
        Err(_) => vstd::pervasive::unreached(),
    }
}

/// How a derivative query is answered once its segment is known: the
/// truncated slope when it is representable, `DomainError` otherwise.
pub open spec fn deriv_answer(r: Result<i64, SolverError>, v: int) -> bool {
    if in_i64(v) {
        r matches Ok(d) && d as int == v
    } else {
        r == Err::<i64, SolverError>(SolverError::DomainError)
    }
}

/// The derivative of the interpolated function at the query point `x`: the
/// slope of the answering segment.  A query outside the tabulated range, or
/// a slope too steep for a coordinate, is reported as `DomainError`.
pub fn eval_deriv_e(xa: &Vec<i64>, ya: &Vec<i64>, x: i64, acc: &mut InterpAccel) -> (r: Result<
    i64,
    SolverError,
>)
    requires
        xa.len() == ya.len(),
        xa.len() >= 2,
        strictly_increasing(xa@),
        old(acc).cache < xa.len() - 1,
    ensures
        !in_table(xa@, x as int) ==> r == Err::<i64, SolverError>(SolverError::DomainError)
            && *final(acc) == *old(acc),
        in_table(xa@, x as int) ==> forall|i: int|
            seg_contains(xa@, i, x as int) ==> deriv_answer(r, deriv_on_seg(xa@, ya@, i)),
        final(acc).cache < xa.len() - 1,
{
    let n = xa.len();
    if x < xa[0] || x > xa[n - 1] {
        return Err(SolverError::DomainError);
    }
    let i = accel_find(acc, xa, x);
    proof {
        assert(xa@[i as int] < xa@[i as int + 1]);
    }
    let dx: i128 = (xa[i + 1] as i128) - (xa[i] as i128);
    let dy: i128 = (ya[i + 1] as i128) - (ya[i] as i128);
    let q = div_trunc_i128(dy, dx);
    let r: Result<i64, SolverError> = if q < i64::MIN as i128 || q > i64::MAX as i128 {
        Err(SolverError::DomainError)
    } else {
        Ok(q as i64)
    };
    proof {
        assert forall|j: int| seg_contains(xa@, j, x as int) implies deriv_answer(
            r,
            deriv_on_seg(xa@, ya@, j),
        ) by {
            lemma_seg_unique(xa@, x as int, i as int, j);
        }
    }
    r
}

/// The derivative at an in-range query point whose segment slope is
/// representable; as [`eval_deriv_e`] for callers that have checked both.
pub fn eval_deriv(xa: &Vec<i64>, ya: &Vec<i64>, x: i64, acc: &mut InterpAccel) -> (d: i64)
    requires
        xa.len() == ya.len(),
        xa.len() >= 2,
        strictly_increasing(xa@),
        old(acc).cache < xa.len() - 1,
        in_table(xa@, x as int),
        forall|i: int| seg_contains(xa@, i, x as int) ==> in_i64(deriv_on_seg(xa@, ya@, i)),
    ensures
        forall|i: int| seg_contains(xa@, i, x as int) ==> d as int == deriv_on_seg(xa@, ya@, i),
        final(acc).cache < xa.len() - 1,
{
    let i = accel_find(acc, xa, x);
    proof {
        assert(xa@[i as int] < xa@[i as int + 1]);
    }
    let dx: i128 = (xa[i + 1] as i128) - (xa[i] as i128);
    let dy: i128 = (ya[i + 1] as i128) - (ya[i] as i128);
    let q = div_trunc_i128(dy, dx);
    let d = (q as i64);
    proof {
        assert forall|j: int| seg_contains(xa@, j, x as int) implies d as int == deriv_on_seg(
            xa@,
            ya@,
            j,
        ) by {
            lemma_seg_unique(xa@, x as int, i as int, j);
        }
    }
    d
}

/// The second derivative of the interpolated function at the query point
/// `x`.  The interpolant is piecewise linear, so every in-range query
/// answers zero; out of range is a `DomainError`.
pub fn eval_deriv2_e(xa: &Vec<i64>, ya: &Vec<i64>, x: i64, acc: &mut InterpAccel) -> (r: Result<
    i64,
    SolverError,
>)
    requires
        xa.len() == ya.len(),
        xa.len() >= 2,
        strictly_increasing(xa@),
        old(acc).cache < xa.len() - 1,
    ensures
        r is Err <==> !in_table(xa@, x as int),
        r is Err ==> r == Err::<i64, SolverError>(SolverError::DomainError) && *final(acc) == *old(
            acc,
        ),
        r is Ok ==> r == Ok::<i64, SolverError>(0),
        final(acc).cache < xa.len() - 1,
{
    let n = xa.len();
    if x < xa[0] || x > xa[n - 1] {
        return Err(SolverError::DomainError);
    }
    let _ = accel_find(acc, xa, x);
    Ok(0)
}

/// Whether every sample of a grid lies within the exact-arithmetic bound
/// [`crate::roots::interp_fit`], inside which the trapezoid sums below
/// cannot overflow.
pub open spec fn table_fits(s: Seq<i64>) -> bool {
    forall|k: int| 0 <= k < s.len() ==> crate::roots::interp_fit(s[k] as int)
}

/// The definite integral of the interpolated function over `[a, b]`: the
/// trapezoid rule, exact on a piecewise-linear interpolant, rounded toward
/// zero once at the end.  Querying outside the tabulated range, or with
/// `b < a`, is reported as `DomainError`.
pub fn eval_integ_e(xa: &Vec<i64>, ya: &Vec<i64>, a: i64, b: i64, acc: &mut InterpAccel) -> (r:
    Result<i64, SolverError>)
    requires
        xa.len() == ya.len(),
        xa.len() >= 2,
        strictly_increasing(xa@),
        old(acc).cache < xa.len() - 1,
        table_fits(xa@),
        table_fits(ya@),
    ensures
        r is Err <==> !(in_table(xa@, a as int) && in_table(xa@, b as int) && a <= b),
        r is Err ==> r == Err::<i64, SolverError>(SolverError::DomainError) && *final(acc) == *old(
            acc,
        ),
        r matches Ok(v) ==> forall|ia: int, ib: int|
            seg_contains(xa@, ia, a as int) && seg_contains(xa@, ib, b as int) ==> v as int == tdiv(
                integ2_of(xa@, ya@, a as int, b as int, ia, ib),
                2,
            ),
        final(acc).cache < xa.len() - 1,
{
    let n = xa.len();
    if a > b || a < xa[0] || a > xa[n - 1] || b < xa[0] || b > xa[n - 1] {
        return Err(SolverError::DomainError);
    }
    let ia = accel_find(acc, xa, a);
    let ib = accel_find(acc, xa, b);
    proof {
        lemma_seg_ordered(xa@, a as int, b as int, ia as int, ib as int);
        lemma_interp_bounded(xa@, ya@, ia as int, a as int);
        lemma_interp_bounded(xa@, ya@, ib as int, b as int);
        assert(crate::roots::interp_fit(xa@[0] as int));
        assert(crate::roots::interp_fit(xa@[xa@.len() - 1] as int));
        assert(crate::roots::interp_fit(ya@[ia as int] as int));
        assert(crate::roots::interp_fit(ya@[ia as int + 1] as int));
        assert(crate::roots::interp_fit(ya@[ib as int] as int));
        assert(crate::roots::interp_fit(ya@[ib as int + 1] as int));
    }
    let fa = interp_value(xa, ya, ia, a);
    let fb = interp_value(xa, ya, ib, b);
    let total: i128;
    if ia == ib {
        proof {
            lemma_mul_bounds(
                b as int - a as int,
                fa as int + fb as int,
                0x8000_0000,
                0x1_0000_0000,
            );
        }
        total = ((b as i128) - (a as i128)) * ((fa as i128) + (fb as i128));
    } else {
        proof {
            assert(crate::roots::interp_fit(xa@[ia as int + 1] as int));
            lemma_mul_bounds(
                xa@[ia as int + 1] - a as int,
                fa as int + ya@[ia as int + 1],
                xa@[ia as int + 1] - a as int,
                0x1_0000_0000,
            );
        }
        let mut t: i128 = ((xa[ia + 1] as i128) - (a as i128)) * ((fa as i128) + (ya[ia
            + 1] as i128));
        let ghost left0: int = t as int;
        let mut k = ia + 1;
        while k < ib
            invariant
                xa.len() == ya.len(),
                2 <= xa.len(),
                strictly_increasing(xa@),
                table_fits(xa@),
                table_fits(ya@),
                ia as int + 1 <= k as int <= ib as int,
                ib < xa.len() - 1,
                seg_contains(xa@, ia as int, a as int),
                a as int <= xa@[ia as int + 1],
                t as int == left0 + trap2_sum(xa@, ya@, ia as int + 1, k as int),
                -((xa@[k as int] - a as int) * 0x1_0000_0000) <= t as int <= (xa@[k as int]
                    - a as int) * 0x1_0000_0000,
            decreases ib - k,
        {
            proof {
                assert(xa@[k as int] < xa@[k as int + 1]);
                assert(crate::roots::interp_fit(xa@[k as int] as int));
                assert(crate::roots::interp_fit(xa@[k as int + 1] as int));
                assert(crate::roots::interp_fit(ya@[k as int] as int));
                assert(crate::roots::interp_fit(ya@[k as int + 1] as int));
                lemma_mul_bounds(
                    xa@[k as int + 1] - xa@[k as int],
                    ya@[k as int] + ya@[k as int + 1],
                    xa@[k as int + 1] - xa@[k as int],
                    0x1_0000_0000,
                );
            }
            t = t + ((xa[k + 1] as i128) - (xa[k] as i128)) * ((ya[k] as i128) + (ya[k
                + 1] as i128));
            k = k + 1;
        }
        proof {
            assert(xa@[ib as int] <= b as int);
            lemma_mul_bounds(
                b as int - xa@[ib as int],
                ya@[ib as int] + fb as int,
                b as int - xa@[ib as int],
                0x1_0000_0000,
            );
        }
        total = t + ((b as i128) - (xa[ib] as i128)) * ((ya[ib] as i128) + (fb as i128));
    }
    proof {
        let tt = total as int;
        if tt >= 0 {
            lemma_div_is_ordered(tt, 0x8000_0000_0000_0000, 2);
        } else {
            lemma_div_is_ordered(-tt, 0x8000_0000_0000_0000, 2);
        }
    }
    let v = div_trunc_i128(total, 2);
    let r: Result<i64, SolverError> = Ok(v as i64);
    proof {
        assert forall|ja: int, jb: int|
            seg_contains(xa@, ja, a as int) && seg_contains(
                xa@,
                jb,
                b as int,
            ) implies (v as i64) as int == tdiv(
            integ2_of(xa@, ya@, a as int, b as int, ja, jb),
            2,
        ) by {
            lemma_seg_unique(xa@, a as int, ia as int, ja);
            lemma_seg_unique(xa@, b as int, ib as int, jb);
        }
    }
    r
}

/// The definite integral over an in-range `[a, b]`; as [`eval_integ_e`]
/// for callers that have already checked the range.
pub fn eval_integ(xa: &Vec<i64>, ya: &Vec<i64>, a: i64, b: i64, acc: &mut InterpAccel) -> (v: i64)
    requires
        xa.len() == ya.len(),
        xa.len() >= 2,
        strictly_increasing(xa@),
        old(acc).cache < xa.len() - 1,
        table_fits(xa@),
        table_fits(ya@),
        in_table(xa@, a as int),
        in_table(xa@, b as int),
        a <= b,
    ensures
        forall|ia: int, ib: int|
            seg_contains(xa@, ia, a as int) && seg_contains(xa@, ib, b as int) ==> v as int == tdiv(
                integ2_of(xa@, ya@, a as int, b as int, ia, ib),
                2,
            ),
        final(acc).cache < xa.len() - 1,
{
    match eval_integ_e(xa, ya, a, b, acc) {
        Ok(v) => v,
        Err(_) => vstd::pervasive::unreached(),
    }
}

/// The second derivative at an in-range query point; zero everywhere, the
/// interpolant being piecewise linear.
pub fn eval_deriv2(xa: &Vec<i64>, ya: &Vec<i64>, x: i64, acc: &mut InterpAccel) -> (d: i64)
    requires
        xa.len() == ya.len(),
        xa.len() >= 2,
        strictly_increasing(xa@),
        old(acc).cache < xa.len() - 1,
        in_table(xa@, x as int),
    ensures
        d == 0,
        final(acc).cache < xa.len() - 1,
{
    match eval_deriv2_e(xa, ya, x, acc) {
        Ok(d) => d,
        Err(_) => vstd::pervasive::unreached(),
    }
}

} // verus!
