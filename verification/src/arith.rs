//! Truncating integer division, as Rust's `/` computes it, together with the
//! facts about it that the interpolation code needs.

use vstd::prelude::*;

verus! {

/// Quotient of `a / b` rounded toward zero (Rust's signed division), defined
/// for positive divisors.
pub open spec fn tdiv(a: int, b: int) -> int
    recommends
        b > 0,
{
    if a >= 0 {
        a / b
    } else {
        -((-a) / b)
    }
}

/// Dividing an exact multiple gives back the factor: `tdiv(a * b, b) == a`.
pub proof fn lemma_tdiv_exact(a: int, b: int)
    requires
        b > 0,
    ensures
        tdiv(a * b, b) == a,
{
    if a >= 0 {
        assert(a * b >= 0) by (nonlinear_arith)
            requires
                a >= 0,
                b > 0,
        ;
        assert((a * b) / b == a) by (nonlinear_arith)
            requires
                b > 0,
        ;
    } else {
        assert(a * b < 0) by (nonlinear_arith)
            requires
                a < 0,
                b > 0,
        ;
        assert(-(a * b) == (-a) * b) by (nonlinear_arith);
        assert(((-a) * b) / b == -a) by (nonlinear_arith)
            requires
                b > 0,
        ;
    }
}

/// The truncated quotient lies between `0` and the numerator's sign side:
/// for `0 <= a` it is in `[0, a]`, for `a <= 0` in `[a, 0]`.
pub proof fn lemma_tdiv_bounds(a: int, b: int)
    requires
        b > 0,
    ensures
        a >= 0 ==> 0 <= tdiv(a, b) <= a,
        a <= 0 ==> a <= tdiv(a, b) <= 0,
{
    if a >= 0 {
        assert(0 <= a / b <= a) by (nonlinear_arith)
            requires
                a >= 0,
                b > 0,
        ;
    } else {
        assert(0 <= (-a) / b <= -a) by (nonlinear_arith)
            requires
                -a >= 0,
                b > 0,
        ;
    }
}

/// Truncating division is monotone in the numerator when both numerators
/// share the side of zero (which is all the interpolation needs).
pub proof fn lemma_tdiv_ordered(x: int, y: int, b: int)
    requires
        b > 0,
        x <= y,
        0 <= x || y <= 0,
    ensures
        tdiv(x, b) <= tdiv(y, b),
{
    if 0 <= x {
        assert(x / b <= y / b) by (nonlinear_arith)
            requires
                b > 0,
                0 <= x <= y,
        ;
    } else {
        assert((-y) / b <= (-x) / b) by (nonlinear_arith)
            requires
                b > 0,
                0 <= -y <= -x,
        ;
    }
}

/// Truncating division of `a` by a positive `b`, on machine integers.
/// The quotient magnitude never exceeds `|a|`, so nothing here overflows.
pub fn tdiv_i64(a: i64, b: i64) -> (q: i64)
    requires
        b >= 1,
        a > i64::MIN,
    ensures
        q == tdiv(a as int, b as int),
{
    if a >= 0 {
        let q = (a as u64) / (b as u64);
        q as i64
    } else {
        let m = (-a) as u64;
        let q = m / (b as u64);
        -(q as i64)
    }
}

} // verus!
