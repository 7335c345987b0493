//! The fixed-point number base of the kernel and its rounding rule.

use vstd::arithmetic::div_mod::lemma_fundamental_div_mod;
use vstd::prelude::*;

verus! {

/// Sub-units per world unit: every coordinate, radius, mass, force,
/// acceleration and timestep in this crate is a signed count of
/// thousandths of the corresponding world quantity.
pub const SCALE: i64 = 1000;

/// Positions handed to the kernel at the start of a frame stay within this
/// many sub-units of the origin on each axis.
pub const MAX_START_COORD: i64 = 2_000_000_000;

/// Coordinate magnitude up to which collision resolution is defined; mid-pass
/// drift stays far below it, and one correction cannot overflow an `i64` from it.
pub const MAX_MID_COORD: i64 = 4_000_000_000_000_000_000;

/// Magnitude of an integer.
pub open spec fn mag(a: int) -> int {
    if a >= 0 {
        a
    } else {
        -a
    }
}

/// Division rounded toward zero, the rounding rule of every kernel formula.
pub open spec fn div_tz(a: int, b: int) -> int {
    if a >= 0 {
        a / b
    } else {
        -((-a) / b)
    }
}

/// `mag` distributes over products.
pub proof fn lemma_mag_mul(a: int, b: int)
    ensures
        mag(a * b) == mag(a) * mag(b),
{
    if a >= 0 && b >= 0 {
        assert(a * b >= 0) by (nonlinear_arith)
            requires
                a >= 0,
                b >= 0,
        ;
    } else if a >= 0 && b < 0 {
        assert(a * b <= 0 && -(a * b) == a * -b) by (nonlinear_arith)
            requires
                a >= 0,
                b < 0,
        ;
    } else if a < 0 && b >= 0 {
        assert(a * b <= 0 && -(a * b) == -a * b) by (nonlinear_arith)
            requires
                a < 0,
                b >= 0,
        ;
    } else {
        assert(a * b >= 0 && a * b == -a * -b) by (nonlinear_arith)
            requires
                a < 0,
                b < 0,
        ;
    }
}

/// Squares of integers of equal magnitude are equal.
pub proof fn lemma_mag_sq(a: int)
    ensures
        mag(a) * mag(a) == a * a,
{
    lemma_mag_mul(a, a);
    assert(a * a >= 0) by (nonlinear_arith);
}

/// A square below another square means a magnitude below the (nonnegative) root.
pub proof fn lemma_sq_le(a: int, r: int)
    requires
        0 <= r,
        a * a <= r * r,
    ensures
        mag(a) <= r,
{
    lemma_mag_sq(a);
    assert(mag(a) <= r) by (nonlinear_arith)
        requires
            0 <= r,
            0 <= mag(a),
            mag(a) * mag(a) <= r * r,
    ;
}

/// A square strictly below another square means a magnitude strictly below the root.
pub proof fn lemma_sq_lt(a: int, r: int)
    requires
        0 <= r,
        a * a < r * r,
    ensures
        mag(a) < r,
{
    lemma_mag_sq(a);
    assert(mag(a) < r) by (nonlinear_arith)
        requires
            0 <= r,
            0 <= mag(a),
            mag(a) * mag(a) < r * r,
    ;
}

/// Magnitudes order squares.
pub proof fn lemma_sq_mono(a: int, b: int)
    requires
        0 <= a <= b,
    ensures
        a * a <= b * b,
{
    assert(a * a <= b * b) by (nonlinear_arith)
        requires
            0 <= a <= b,
    ;
}

/// Truncating division takes the sign of the dividend, and the magnitude of
/// `div_tz(a, b) * b` never exceeds the magnitude of `a`.
pub proof fn lemma_div_tz_bounds(a: int, b: int)
    requires
        1 <= b,
    ensures
        a >= 0 ==> div_tz(a, b) >= 0,
        a <= 0 ==> div_tz(a, b) <= 0,
        mag(div_tz(a, b)) * b <= mag(a),
{
    if a >= 0 {
        lemma_fundamental_div_mod(a, b);
        assert(a / b >= 0) by (nonlinear_arith)
            requires
                a >= 0,
                b >= 1,
        ;
        assert((a / b) * b <= a) by (nonlinear_arith)
            requires
                b >= 1,
                a == b * (a / b) + a % b,
                0 <= a % b,
        ;
    } else {
        lemma_fundamental_div_mod(-a, b);
        assert((-a) / b >= 0) by (nonlinear_arith)
            requires
                -a >= 0,
                b >= 1,
        ;
        assert(((-a) / b) * b <= -a) by (nonlinear_arith)
            requires
                b >= 1,
                -a == b * ((-a) / b) + (-a) % b,
                0 <= (-a) % b,
        ;
    }
}

/// Truncating division is odd in its dividend.
pub proof fn lemma_div_tz_neg(a: int, b: int)
    requires
        1 <= b,
    ensures
        div_tz(-a, b) == -div_tz(a, b),
{
    if a == 0 {
        assert(div_tz(0, b) == 0int / b);
        assert(0int / b == 0) by (nonlinear_arith)
            requires
                b >= 1,
        ;
    }
}

/// Truncating division of an `i128` by a positive `i128`.
pub fn div_tz_i128(a: i128, b: i128) -> (q: i128)
    requires
        0 < b,
        i128::MIN < a,
    ensures
        q == div_tz(a as int, b as int),
        a >= 0 ==> 0 <= q <= a,
        a <= 0 ==> a <= q <= 0,
{
    proof {
        lemma_div_tz_bounds(a as int, b as int);
    }
    if a >= 0 {
        let m: u128 = a as u128;
        let d: u128 = b as u128;
        let r: u128 = m / d;
        proof {
            lemma_fundamental_div_mod(m as int, d as int);
            assert(r <= m) by (nonlinear_arith)
                requires
                    d >= 1,
                    m == d * r + m % d,
                    0 <= m % d,
                    0 <= r,
            ;
        }
        r as i128
    } else {
        let m: u128 = (-a) as u128;
        let d: u128 = b as u128;
        let r: u128 = m / d;
        proof {
            lemma_fundamental_div_mod(m as int, d as int);
            assert(r <= m) by (nonlinear_arith)
                requires
                    d >= 1,
                    m == d * r + m % d,
                    0 <= m % d,
                    0 <= r,
            ;
        }
        -(r as i128)
    }
}

} // verus!
