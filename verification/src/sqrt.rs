//! A verified integer ceiling square root, the length measure of the kernel.
//!
//! Distances between centres are compared through the least integer whose
//! square reaches the squared distance.  Rounding the root up keeps every
//! collision correction from pushing a pair past the exact separation.

use crate::fixed::lemma_sq_mono;
use vstd::prelude::*;

verus! {

/// `r` is the ceiling square root of `n`: the least nonnegative integer
/// whose square is at least `n`.
pub open spec fn is_ceil_sqrt(n: int, r: int) -> bool {
    &&& 0 <= r
    &&& n <= r * r
    &&& (r == 0 || (r - 1) * (r - 1) < n)
}

/// The ceiling square root of `n`, as a value.
pub open spec fn ceil_sqrt(n: int) -> int {
    choose|r: int| is_ceil_sqrt(n, r)
}

/// The ceiling square root exists for every nonnegative argument.
pub proof fn lemma_ceil_sqrt_exists(n: int)
    requires
        0 <= n,
    ensures
        is_ceil_sqrt(n, ceil_sqrt(n)),
    decreases n,
{
    if n == 0 {
        assert(is_ceil_sqrt(0, 0));
    } else {
        lemma_ceil_sqrt_exists(n - 1);
        let p = ceil_sqrt(n - 1);
        if n <= p * p {
            assert(is_ceil_sqrt(n, p));
        } else {
            assert((p + 1 - 1) * (p + 1 - 1) == p * p);
            assert(n <= (p + 1) * (p + 1)) by (nonlinear_arith)
                requires
                    0 <= p,
                    n - 1 <= p * p,
                    p * p < n,
            ;
            assert(is_ceil_sqrt(n, p + 1));
        }
    }
}

/// The ceiling square root is unique: any witness equals `ceil_sqrt(n)`.
pub proof fn lemma_ceil_sqrt_is(n: int, r: int)
    requires
        0 <= n,
        is_ceil_sqrt(n, r),
    ensures
        ceil_sqrt(n) == r,
{
    let c = ceil_sqrt(n);
    assert(is_ceil_sqrt(n, c));
    if c < r {
        lemma_sq_mono(c, r - 1);
        assert(false);
    } else if r < c {
        lemma_sq_mono(r, c - 1);
        assert(false);
    }
}

/// Computes the ceiling square root of a `u64`.
pub fn ceil_sqrt_u64(n: u64) -> (r: u64)
    ensures
        r as int == ceil_sqrt(n as int),
        is_ceil_sqrt(n as int, r as int),
        r <= 0x1_0000_0000,
{
    let mut lo: u64 = 0;
    let mut hi: u64 = 0x1_0000_0000;
    proof {
        assert(n as int <= 0x1_0000_0000 * 0x1_0000_0000);
    }
    while lo < hi
        invariant
            lo <= hi <= 0x1_0000_0000,
            n as int <= hi * hi,
            lo == 0 || (lo - 1) * (lo - 1) < n as int,
        decreases hi - lo,
    {
        let mid: u64 = lo + (hi - lo) / 2;
        proof {
            assert(mid as int * mid as int <= 0x1_0000_0000 * 0x1_0000_0000) by (nonlinear_arith)
                requires
                    0 <= mid as int <= 0x1_0000_0000,
            ;
        }
        let sq: u128 = (mid as u128) * (mid as u128);
        if sq >= n as u128 {
            hi = mid;
        } else {
            lo = mid + 1;
        }
    }
    proof {
        lemma_ceil_sqrt_is(n as int, lo as int);
    }
    lo
}

} // verus!
