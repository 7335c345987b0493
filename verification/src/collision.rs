//! Pairwise overlap resolution for circular bodies.
//!
//! For a pair whose centre distance is below the sum of radii, both centres
//! are pushed apart along the line between them, each by half the
//! penetration.  Distance is measured by the integer ceiling square root,
//! so one resolution never pushes a pair past the exact separation.

use crate::fixed::{
    div_tz, div_tz_i128, lemma_div_tz_bounds, lemma_div_tz_neg, lemma_mag_mul, lemma_mag_sq,
    lemma_sq_le, lemma_sq_lt, lemma_sq_mono, mag, MAX_MID_COORD,
};
use crate::particle::Particle;
use crate::physics::MAX_WORLD;
use crate::sqrt::{ceil_sqrt, ceil_sqrt_u64, is_ceil_sqrt, lemma_ceil_sqrt_exists};
use vstd::arithmetic::div_mod::lemma_div_is_ordered;
use vstd::prelude::*;

verus! {

/// The half-correction a colliding pair applies: the particle at the head of
/// the separation `(dx, dy)` moves by `+` this vector, the one at its tail
/// by `-` it.  `(0, 0)` when the pair is not overlapping; for coincident
/// centres the separation is taken as one sub-unit along the y axis.
pub open spec fn collide_shift(dx: int, dy: int, maxr: int) -> (int, int) {
    if mag(dx) >= maxr || mag(dy) >= maxr {
        (0, 0)
    } else if dx == 0 && dy == 0 {
        (0, div_tz(maxr - 1, 2))
    } else {
        let len = ceil_sqrt(dx * dx + dy * dy);
        if maxr <= len {
            (0, 0)
        } else {
            (div_tz(dx * (maxr - len), 2 * len), div_tz(dy * (maxr - len), 2 * len))
        }
    }
}

/// `a1` and `b1` are `a0` and `b0` after one overlap resolution: positions
/// shifted by the half-correction, every other field untouched.
pub open spec fn resolved(a0: Particle, b0: Particle, a1: Particle, b1: Particle) -> bool {
    let dx = b0.position.x - a0.position.x;
    let dy = b0.position.y - a0.position.y;
    let c = collide_shift(dx, dy, a0.radius + b0.radius);
    &&& a1.position.x == a0.position.x - c.0
    &&& a1.position.y == a0.position.y - c.1
    &&& b1.position.x == b0.position.x + c.0
    &&& b1.position.y == b0.position.y + c.1
    &&& a1.previous_position == a0.previous_position
    &&& b1.previous_position == b0.previous_position
    &&& a1.force == a0.force
    &&& b1.force == b0.force
    &&& a1.mass == a0.mass
    &&& b1.mass == b0.mass
    &&& a1.radius == a0.radius
    &&& b1.radius == b0.radius
}

/// Half of `d * ov / len`, rounded toward zero.
fn half_shift(d: i64, ov: i64, len: i64) -> (c: i64)
    requires
        1 <= ov <= MAX_WORLD,
        1 <= len <= MAX_WORLD,
        mag(d as int) <= len,
    ensures
        c as int == div_tz(d * ov, 2 * len),
        2 * mag(c as int) <= ov,
{
    proof {
        lemma_mag_mul(d as int, ov as int);
        assert(mag(d as int) * ov <= len * ov) by (nonlinear_arith)
            requires
                mag(d as int) <= len,
                1 <= ov,
        ;
        assert(len * ov <= MAX_WORLD * MAX_WORLD) by (nonlinear_arith)
            requires
                1 <= len <= MAX_WORLD,
                1 <= ov <= MAX_WORLD,
        ;
    }
    let num: i128 = d as i128 * ov as i128;
    let den: i128 = 2 * len as i128;
    let q: i128 = div_tz_i128(num, den);
    proof {
        lemma_div_tz_bounds(num as int, den as int);
        assert(mag(q as int) * (2 * len) <= mag(d as int) * ov);
        assert(2 * mag(q as int) <= ov) by (nonlinear_arith)
            requires
                mag(q as int) * (2 * len) <= mag(d as int) * ov,
                mag(d as int) * ov <= len * ov,
                1 <= len,
                1 <= ov,
                0 <= mag(q as int),
        ;
    }
    q as i64
}

impl Particle {
    /// Resolves the overlap, if any, between `self` and `other`: both
    /// positions move apart by half the penetration along the separation
    /// line.  Previous positions and forces stay untouched, so the
    /// correction reaches velocity only through the next Verlet step.
    /// Coincident centres separate along the y axis.
    pub fn calc_collision(&mut self, other: &mut Particle)
        requires
            old(self).wf(),
            old(other).wf(),
            old(self).radius + old(other).radius <= MAX_WORLD,
            old(self).coords_within(MAX_MID_COORD as int),
            old(other).coords_within(MAX_MID_COORD as int),
        ensures
            resolved(*old(self), *old(other), *final(self), *final(other)),
    {
        let ghost a0 = *self;
        let ghost b0 = *other;
        let ghost gdx: int = b0.position.x - a0.position.x;
        let ghost gdy: int = b0.position.y - a0.position.y;
        let dx_w: i128 = other.position.x as i128 - self.position.x as i128;
        let dy_w: i128 = other.position.y as i128 - self.position.y as i128;
        let maxr: i64 = self.radius + other.radius;
        let adx: i128 = if dx_w >= 0 { dx_w } else { -dx_w };
        let ady: i128 = if dy_w >= 0 { dy_w } else { -dy_w };
        proof {
            assert(adx == mag(gdx));
            assert(ady == mag(gdy));
        }
        if adx < maxr as i128 && ady < maxr as i128 {
            let dx: i64 = dx_w as i64;
            let dy: i64 = dy_w as i64;
            proof {
                lemma_mag_sq(gdx);
                lemma_mag_sq(gdy);
                lemma_sq_mono(mag(gdx), MAX_WORLD as int);
                lemma_sq_mono(mag(gdy), MAX_WORLD as int);
            }
            let (sdx, sdy, len): (i64, i64, i64) = if dx == 0 && dy == 0 {
                (0, 1, 1)
            } else {
                let d2: u64 = (dx as i128 * dx as i128 + dy as i128 * dy as i128) as u64;
                let r: u64 = ceil_sqrt_u64(d2);
                proof {
                    assert(1 <= d2) by (nonlinear_arith)
                        requires
                            d2 == dx * dx + dy * dy,
                            !(dx == 0 && dy == 0),
                    ;
                    assert(r as int * r as int >= 1);
                    assert(r >= 1) by (nonlinear_arith)
                        requires
                            r as int * r as int >= 1,
                            r as int >= 0,
                    ;
                    assert(is_ceil_sqrt(gdx * gdx + gdy * gdy, r as int));
                }
                (dx, dy, r as i64)
            };
            if len < maxr {
                proof {
                    if gdx == 0 && gdy == 0 {
                        assert(mag(sdx as int) <= len);
                        assert(mag(sdy as int) <= len);
                    } else {
                        assert(sdx as int * sdx as int >= 0 && sdy as int * sdy as int >= 0)
                            by (nonlinear_arith);
                        assert(sdx as int * sdx as int <= len * len);
                        assert(sdy as int * sdy as int <= len * len);
                        lemma_sq_le(sdx as int, len as int);
                        lemma_sq_le(sdy as int, len as int);
                    }
                }
                let ov: i64 = maxr - len;
                let cx: i64 = half_shift(sdx, ov, len);
                let cy: i64 = half_shift(sdy, ov, len);
                self.position.x = (self.position.x as i128 - cx as i128) as i64;
                self.position.y = (self.position.y as i128 - cy as i128) as i64;
                other.position.x = (other.position.x as i128 + cx as i128) as i64;
                other.position.y = (other.position.y as i128 + cy as i128) as i64;
                proof {
                    if gdx == 0 && gdy == 0 {
                        assert(collide_shift(gdx, gdy, maxr as int) == (0int, div_tz(maxr - 1, 2)));
                        assert(cx as int == div_tz(0 * (maxr as int - 1), (2 * 1) as int));
                        assert(0 * (maxr as int - 1) == 0);
                        assert(div_tz(0, 2int) == 0);
                        assert(cy as int == div_tz(1 * (maxr as int - 1), (2 * 1) as int));
                        assert(1 * (maxr as int - 1) == maxr as int - 1);
                    } else {
                        assert(is_ceil_sqrt(gdx * gdx + gdy * gdy, len as int));
                        crate::sqrt::lemma_ceil_sqrt_is(gdx * gdx + gdy * gdy, len as int);
                        assert(collide_shift(gdx, gdy, maxr as int) == (
                            div_tz(gdx * (maxr - len), 2 * (len as int)),
                            div_tz(gdy * (maxr - len), 2 * (len as int)),
                        ));
                    }
                }
            } else {
                proof {
                    assert(!(gdx == 0 && gdy == 0));
                    assert(is_ceil_sqrt(gdx * gdx + gdy * gdy, len as int));
                    crate::sqrt::lemma_ceil_sqrt_is(gdx * gdx + gdy * gdy, len as int);
                    assert(collide_shift(gdx, gdy, maxr as int) == (0int, 0int));
                }
            }
        }
    }
}

/// One axis of the correction: the shifted separation component keeps its
/// sign, does not shrink, and its product with `len` stays within the old
/// component times `maxr`.
proof fn lemma_axis_shift(d: int, ov: int, len: int, maxr: int)
    requires
        1 <= len,
        1 <= ov,
        maxr == len + ov,
        mag(d) <= len,
    ensures
        ({
            let c = div_tz(d * ov, 2 * len);
            let nd = d + 2 * c;
            &&& d * d <= nd * nd
            &&& (nd * nd) * (len * len) <= (d * d) * (maxr * maxr)
        }),
{
    let c = div_tz(d * ov, 2 * len);
    let nd = d + 2 * c;
    lemma_div_tz_bounds(d * ov, 2 * len);
    lemma_mag_mul(d, ov);
    if d >= 0 {
        assert(d * ov >= 0) by (nonlinear_arith)
            requires
                d >= 0,
                ov >= 1,
        ;
        assert(c >= 0);
        assert(mag(nd) == mag(d) + 2 * mag(c));
    } else {
        assert(d * ov <= 0) by (nonlinear_arith)
            requires
                d <= 0,
                ov >= 1,
        ;
        assert(c <= 0);
        assert(mag(nd) == mag(d) + 2 * mag(c));
    }
    lemma_mag_sq(d);
    lemma_mag_sq(nd);
    lemma_sq_mono(mag(d), mag(nd));
    assert(d * d <= nd * nd);
    assert(mag(c) * (2 * len) <= mag(d) * ov);
    assert(mag(nd) * len <= mag(d) * maxr) by (nonlinear_arith)
        requires
            mag(nd) == mag(d) + 2 * mag(c),
            mag(c) * (2 * len) <= mag(d) * ov,
            maxr == len + ov,
            len >= 1,
    ;
    assert(0 <= mag(nd) * len) by (nonlinear_arith)
        requires
            0 <= mag(nd),
            0 <= len,
    ;
    lemma_sq_mono(mag(nd) * len, mag(d) * maxr);
    assert((mag(nd) * len) * (mag(nd) * len) == (nd * nd) * (len * len)) by (nonlinear_arith)
        requires
            mag(nd) * mag(nd) == nd * nd,
    ;
    assert((mag(d) * maxr) * (mag(d) * maxr) == (d * d) * (maxr * maxr)) by (nonlinear_arith)
        requires
            mag(d) * mag(d) == d * d,
    ;
}

/// Resolving an overlapping pair never decreases the squared centre
/// distance and never pushes it past the squared radius sum: each
/// resolution moves the pair monotonically toward exact separation.  A
/// later resolution against a third body may disturb either particle
/// again, so a whole pass over a cluster of three or more bodies keeps no
/// such guarantee.
pub proof fn lemma_resolve_reduces_overlap(dx: int, dy: int, maxr: int)
    requires
        2 <= maxr,
        dx * dx + dy * dy < maxr * maxr,
    ensures
        ({
            let c = collide_shift(dx, dy, maxr);
            let nx = dx + 2 * c.0;
            let ny = dy + 2 * c.1;
            &&& dx * dx + dy * dy <= nx * nx + ny * ny
            &&& nx * nx + ny * ny <= maxr * maxr
        }),
{
    let d2 = dx * dx + dy * dy;
    assert(dx * dx >= 0 && dy * dy >= 0) by (nonlinear_arith);
    lemma_sq_lt(dx, maxr);
    lemma_sq_lt(dy, maxr);
    if dx == 0 && dy == 0 {
        let h = div_tz(maxr - 1, 2);
        lemma_div_tz_bounds(maxr - 1, 2);
        assert(h >= 0);
        assert(2 * h <= maxr - 1);
        lemma_sq_mono(2 * h, maxr - 1);
        assert((maxr - 1) * (maxr - 1) <= maxr * maxr) by (nonlinear_arith)
            requires
                maxr >= 1,
        ;
        assert((2 * h) * (2 * h) >= 0) by (nonlinear_arith);
        assert(collide_shift(dx, dy, maxr) == (0int, h));
    } else {
        if dx != 0 {
            assert(dx * dx >= 1) by (nonlinear_arith)
                requires
                    dx != 0,
            ;
        } else {
            assert(dy * dy >= 1) by (nonlinear_arith)
                requires
                    dy != 0,
            ;
        }
        lemma_ceil_sqrt_exists(d2);
        let len = ceil_sqrt(d2);
        assert(len >= 1) by (nonlinear_arith)
            requires
                len * len >= d2,
                d2 >= 1,
                len >= 0,
        ;
        if maxr <= len {
        } else {
            let ov = maxr - len;
            lemma_sq_le(dx, len);
            lemma_sq_le(dy, len);
            lemma_axis_shift(dx, ov, len, maxr);
            lemma_axis_shift(dy, ov, len, maxr);
            let cx = div_tz(dx * ov, 2 * len);
            let cy = div_tz(dy * ov, 2 * len);
            let nx = dx + 2 * cx;
            let ny = dy + 2 * cy;
            assert((nx * nx + ny * ny) * (len * len) <= (dx * dx + dy * dy) * (maxr * maxr))
                by (nonlinear_arith)
                requires
                    (nx * nx) * (len * len) <= (dx * dx) * (maxr * maxr),
                    (ny * ny) * (len * len) <= (dy * dy) * (maxr * maxr),
            ;
            assert((dx * dx + dy * dy) * (maxr * maxr) <= (len * len) * (maxr * maxr))
                by (nonlinear_arith)
                requires
                    dx * dx + dy * dy <= len * len,
                    maxr * maxr >= 0,
            ;
            assert(nx * nx + ny * ny <= maxr * maxr) by (nonlinear_arith)
                requires
                    (nx * nx + ny * ny) * (len * len) <= (len * len) * (maxr * maxr),
                    len >= 1,
            ;
        }
    }
}

/// A resolved overlapping pair, in particle terms: the squared centre
/// distance does not shrink and ends at or below the squared radius sum.
pub proof fn lemma_resolved_pair_overlap_shrinks(
    a0: Particle,
    b0: Particle,
    a1: Particle,
    b1: Particle,
)
    requires
        resolved(a0, b0, a1, b1),
        a0.wf(),
        b0.wf(),
        ({
            let dx = b0.position.x - a0.position.x;
            let dy = b0.position.y - a0.position.y;
            let maxr = a0.radius + b0.radius;
            dx * dx + dy * dy < maxr * maxr
        }),
    ensures
        ({
            let dx = b0.position.x - a0.position.x;
            let dy = b0.position.y - a0.position.y;
            let nx = b1.position.x - a1.position.x;
            let ny = b1.position.y - a1.position.y;
            let maxr = a0.radius + b0.radius;
            &&& dx * dx + dy * dy <= nx * nx + ny * ny
            &&& nx * nx + ny * ny <= maxr * maxr
        }),
{
    let dx = b0.position.x - a0.position.x;
    let dy = b0.position.y - a0.position.y;
    lemma_resolve_reduces_overlap(dx, dy, a0.radius + b0.radius);
}

/// Each component of the half-correction stays below the radius sum.
pub proof fn lemma_collide_shift_bound(dx: int, dy: int, maxr: int)
    requires
        2 <= maxr,
    ensures
        mag(collide_shift(dx, dy, maxr).0) <= maxr,
        mag(collide_shift(dx, dy, maxr).1) <= maxr,
{
    if mag(dx) >= maxr || mag(dy) >= maxr {
    } else if dx == 0 && dy == 0 {
        lemma_div_tz_bounds(maxr - 1, 2);
    } else {
        let d2 = dx * dx + dy * dy;
        assert(dx * dx >= 0 && dy * dy >= 0) by (nonlinear_arith);
        if dx != 0 {
            assert(dx * dx >= 1) by (nonlinear_arith)
                requires
                    dx != 0,
            ;
        } else {
            assert(dy * dy >= 1) by (nonlinear_arith)
                requires
                    dy != 0,
            ;
        }
        lemma_ceil_sqrt_exists(d2);
        let len = ceil_sqrt(d2);
        assert(len >= 1) by (nonlinear_arith)
            requires
                len * len >= d2,
                d2 >= 1,
                len >= 0,
        ;
        if maxr <= len {
        } else {
            let ov = maxr - len;
            lemma_sq_le(dx, len);
            lemma_sq_le(dy, len);
            lemma_div_tz_bounds(dx * ov, 2 * len);
            lemma_div_tz_bounds(dy * ov, 2 * len);
            lemma_mag_mul(dx, ov);
            lemma_mag_mul(dy, ov);
            let cx = div_tz(dx * ov, 2 * len);
            let cy = div_tz(dy * ov, 2 * len);
            assert(mag(cx) <= maxr) by (nonlinear_arith)
                requires
                    mag(cx) * (2 * len) <= mag(dx) * ov,
                    mag(dx) <= len,
                    1 <= len,
                    1 <= ov <= maxr,
                    0 <= mag(cx),
            ;
            assert(mag(cy) <= maxr) by (nonlinear_arith)
                requires
                    mag(cy) * (2 * len) <= mag(dy) * ov,
                    mag(dy) <= len,
                    1 <= len,
                    1 <= ov <= maxr,
                    0 <= mag(cy),
            ;
        }
    }
}

/// Swapping the pair flips the half-correction: the separation vector
/// reverses sign, its length does not.
pub proof fn lemma_collide_shift_antisym(dx: int, dy: int, maxr: int)
    requires
        !(dx == 0 && dy == 0),
    ensures
        collide_shift(-dx, -dy, maxr).0 == -collide_shift(dx, dy, maxr).0,
        collide_shift(-dx, -dy, maxr).1 == -collide_shift(dx, dy, maxr).1,
{
    assert(mag(-dx) == mag(dx));
    assert(mag(-dy) == mag(dy));
    assert((-dx) * (-dx) == dx * dx) by (nonlinear_arith);
    assert((-dy) * (-dy) == dy * dy) by (nonlinear_arith);
    if mag(dx) >= maxr || mag(dy) >= maxr {
    } else {
        let d2 = dx * dx + dy * dy;
        assert(dx * dx >= 0 && dy * dy >= 0) by (nonlinear_arith);
        if dx != 0 {
            assert(dx * dx >= 1) by (nonlinear_arith)
                requires
                    dx != 0,
            ;
        } else {
            assert(dy * dy >= 1) by (nonlinear_arith)
                requires
                    dy != 0,
            ;
        }
        lemma_ceil_sqrt_exists(d2);
        let len = ceil_sqrt(d2);
        assert(len >= 1) by (nonlinear_arith)
            requires
                len * len >= d2,
                d2 >= 1,
                len >= 0,
        ;
        if maxr <= len {
        } else {
            assert((-dx) * (maxr - len) == -(dx * (maxr - len))) by (nonlinear_arith);
            assert((-dy) * (maxr - len) == -(dy * (maxr - len))) by (nonlinear_arith);
            lemma_div_tz_neg(dx * (maxr - len), 2 * len);
            lemma_div_tz_neg(dy * (maxr - len), 2 * len);
        }
    }
}

/// Resolution is symmetric: resolving `(a, b)` and resolving `(b, a)`
/// produce identical positions for both particles, whenever the centres
/// differ.  With coincident centres the fixed substitute separation pushes
/// the second argument upward in either call, so that case is excluded.
pub proof fn lemma_resolve_symmetric(
    a0: Particle,
    b0: Particle,
    a1: Particle,
    b1: Particle,
    b2: Particle,
    a2: Particle,
)
    requires
        resolved(a0, b0, a1, b1),
        resolved(b0, a0, b2, a2),
        a0.position != b0.position,
    ensures
        a1 == a2,
        b1 == b2,
{
    let dx = b0.position.x - a0.position.x;
    let dy = b0.position.y - a0.position.y;
    assert(!(dx == 0 && dy == 0));
    lemma_collide_shift_antisym(dx, dy, a0.radius + b0.radius);
    assert(a1.position == a2.position);
    assert(b1.position == b2.position);
}

/// Two particles with coincident centres and a combined radius of at least
/// three sub-units separate along the y axis in one resolution: the first
/// moves down and the second up, each by half the substitute penetration,
/// at unchanged x coordinates and finite integer positions.
pub proof fn lemma_coincident_pair_separates(a0: Particle, b0: Particle, a1: Particle, b1: Particle)
    requires
        resolved(a0, b0, a1, b1),
        a0.position == b0.position,
        a0.radius + b0.radius >= 3,
    ensures
        a1.position.x == a0.position.x,
        b1.position.x == b0.position.x,
        a1.position.y < a0.position.y,
        b1.position.y > b0.position.y,
        b1.position.y - a1.position.y == 2 * div_tz(a0.radius + b0.radius - 1, 2),
{
    let maxr = a0.radius + b0.radius;
    let h = div_tz(maxr - 1, 2);
    lemma_div_tz_bounds(maxr - 1, 2);
    lemma_div_is_ordered(2, maxr - 1, 2);
    assert((2int) / (2int) == 1);
    assert(h >= 1);
    assert(collide_shift(0, 0, maxr) == (0int, h));
}

} // verus!
