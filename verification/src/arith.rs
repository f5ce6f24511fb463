//! Exact integer arithmetic shared by the solver families: truncated
//! division as the numerical kernels compute it, together with the bound
//! lemmas the kernels need to rule out overflow.

use vstd::prelude::*;
use vstd::arithmetic::div_mod::{lemma_div_is_ordered, lemma_div_nonincreasing, lemma_div_pos_is_pos};
use vstd::math::abs;

verus! {

/// Whether a mathematical integer is representable as a coordinate.
pub open spec fn in_i64(x: int) -> bool {
    i64::MIN <= x <= i64::MAX
}

/// Division rounded toward zero, the rule the update formulas use.
pub open spec fn tdiv(n: int, d: int) -> int
    recommends
        d != 0,
{
    if n >= 0 && d > 0 {
        n / d
    } else if n < 0 && d > 0 {
        -((-n) / d)
    } else if n >= 0 && d < 0 {
        -(n / (-d))
    } else {
        (-n) / (-d)
    }
}

/// The quotient never exceeds the dividend in magnitude.
pub proof fn lemma_tdiv_bound(n: int, d: int)
    requires
        d != 0,
    ensures
        abs(tdiv(n, d)) <= abs(n),
{
    let a: int = if n >= 0 {
        n
    } else {
        -n
    };
    let b: int = if d > 0 {
        d
    } else {
        -d
    };
    lemma_div_pos_is_pos(a, b);
    lemma_div_nonincreasing(a, b);
}

/// Dividing an exact multiple recovers the factor.
pub proof fn lemma_tdiv_exact(d: int, y: int)
    requires
        d != 0,
    ensures
        tdiv(d * y, d) == y,
{
    if d > 0 {
        if y >= 0 {
            assert(d * y >= 0) by (nonlinear_arith)
                requires
                    d > 0,
                    y >= 0,
            ;
            vstd::arithmetic::div_mod::lemma_div_multiples_vanish(y, d);
        } else {
            assert(d * y < 0 && -(d * y) == d * (-y)) by (nonlinear_arith)
                requires
                    d > 0,
                    y < 0,
            ;
            vstd::arithmetic::div_mod::lemma_div_multiples_vanish(-y, d);
        }
    } else {
        if y >= 0 {
            assert(d * y <= 0 && -(d * y) == (-d) * y) by (nonlinear_arith)
                requires
                    d < 0,
                    y >= 0,
            ;
            vstd::arithmetic::div_mod::lemma_div_multiples_vanish(y, -d);
        } else {
            assert(d * y > 0 && d * y == (-d) * (-y)) by (nonlinear_arith)
                requires
                    d < 0,
                    y < 0,
            ;
            vstd::arithmetic::div_mod::lemma_div_multiples_vanish(-y, -d);
        }
    }
}

/// A product of bounded factors is bounded by the product of the bounds.
pub proof fn lemma_mul_bounds(a: int, b: int, aa: int, bb: int)
    by (nonlinear_arith)
    requires
        -aa <= a <= aa,
        -bb <= b <= bb,
        0 <= aa,
        0 <= bb,
    ensures
        -(aa * bb) <= a * b <= aa * bb,
{
}

/// A nonnegative quotient is bounded by any factored upper bound on the
/// dividend: if `n <= d * c` then `n / d <= c`.
pub proof fn lemma_div_le_factor(n: int, d: int, c: int)
    requires
        0 <= n,
        0 < d,
        0 <= c,
        n <= d * c,
    ensures
        n / d <= c,
{
    lemma_div_is_ordered(n, d * c, d);
    vstd::arithmetic::div_mod::lemma_div_multiples_vanish(c, d);
}

/// Truncated division of machine-width operands, exactly as [`tdiv`]
/// describes it.
pub fn div_trunc_i128(n: i128, d: i128) -> (q: i128)
    requires
        d != 0,
        n != i128::MIN,
        d != i128::MIN,
    ensures
        q as int == tdiv(n as int, d as int),
        abs(q as int) <= abs(n as int),
{
    let nm: u128 = if n >= 0 {
        n as u128
    } else {
        (-n) as u128
    };
    let dm: u128 = if d >= 0 {
        d as u128
    } else {
        (-d) as u128
    };
    let qm: u128 = nm / dm;
    proof {
        lemma_div_pos_is_pos(nm as int, dm as int);
        lemma_div_nonincreasing(nm as int, dm as int);
    }
    if (n >= 0) == (d >= 0) {
        qm as i128
    } else {
        -(qm as i128)
    }
}

} // verus!
