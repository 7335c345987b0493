//! The integrator: Verlet integration under gravity and pending force,
//! followed by the boundary clamp and the force reset.

use crate::fixed::{div_tz, div_tz_i128, lemma_div_tz_bounds, mag, SCALE};
use crate::particle::Particle;
use crate::vec2::Vec2;
use vstd::arithmetic::div_mod::lemma_div_of0;
use vstd::prelude::*;

verus! {

/// Largest world extent (width or height) the kernel accepts, in sub-units.
pub const MAX_WORLD: i64 = 1_000_000_000;

/// Largest gravity component magnitude, in sub-units per second squared.
pub const MAX_GRAVITY: i64 = 1_000_000_000_000_000;

/// Largest pending-force component magnitude the integrator accepts.
pub const MAX_FORCE: i64 = 1_000_000_000_000_000;

/// Largest timestep, in sub-units of a second.
pub const MAX_DT: i64 = 1_000_000;

/// The immutable configuration of a simulation: world bounds and gravity.
#[derive(Clone, Copy, Debug, PartialEq, Eq, Structural)]
pub struct SimConfig {
    pub width: i64,
    pub height: i64,
    pub gravity: Vec2,
}

impl SimConfig {
    /// World extents are positive and bounded; gravity is bounded.
    pub open spec fn wf(self) -> bool {
        &&& 0 < self.width <= MAX_WORLD
        &&& 0 < self.height <= MAX_WORLD
        &&& mag(self.gravity.x as int) <= MAX_GRAVITY
        &&& mag(self.gravity.y as int) <= MAX_GRAVITY
    }

    /// Builds a configuration within the accepted ranges.
    pub fn new(width: i64, height: i64, gravity: Vec2) -> (c: SimConfig)
        requires
            0 < width <= MAX_WORLD,
            0 < height <= MAX_WORLD,
            mag(gravity.x as int) <= MAX_GRAVITY,
            mag(gravity.y as int) <= MAX_GRAVITY,
        ensures
            c.width == width,
            c.height == height,
            c.gravity == gravity,
            c.wf(),
    {
        SimConfig { width, height, gravity }
    }
}

/// `v` forced into `[lo, hi]`, each axis independently.
pub open spec fn clamped(v: int, lo: int, hi: int) -> int {
    if v < lo {
        lo
    } else if v > hi {
        hi
    } else {
        v
    }
}

/// Acceleration along one axis: gravity plus force over mass.
pub open spec fn accel_axis(g: int, f: int, m: int) -> int {
    g + div_tz(f * (SCALE as int), m)
}

/// Displacement contributed by acceleration `acc` over one step `dt`:
/// `acc * dt * dt`, each product rescaled once.
pub open spec fn verlet_shift(acc: int, dt: int) -> int {
    div_tz(div_tz(acc * dt, SCALE as int) * dt, SCALE as int)
}

/// One axis of the Verlet step: `2 * pos - prev` plus the acceleration
/// displacement, clamped into `[lo, hi]`.
pub open spec fn next_axis(pos: int, prev: int, acc: int, dt: int, lo: int, hi: int) -> int {
    clamped(2 * pos - prev + verlet_shift(acc, dt), lo, hi)
}

/// The particle after one integration step: position advanced and clamped,
/// previous position set to the pre-step position, force reset to zero.
pub open spec fn integrated(p: Particle, dt: int, cfg: SimConfig) -> Particle {
    Particle {
        position: Vec2 {
            x: next_axis(
                p.position.x as int,
                p.previous_position.x as int,
                accel_axis(cfg.gravity.x as int, p.force.x as int, p.mass as int),
                dt,
                p.radius as int,
                cfg.width - p.radius,
            ) as i64,
            y: next_axis(
                p.position.y as int,
                p.previous_position.y as int,
                accel_axis(cfg.gravity.y as int, p.force.y as int, p.mass as int),
                dt,
                p.radius as int,
                cfg.height - p.radius,
            ) as i64,
        },
        previous_position: p.position,
        force: Vec2 { x: 0, y: 0 },
        mass: p.mass,
        radius: p.radius,
    }
}

/// Computes one axis of the Verlet step with exact fixed-point rounding.
fn step_axis(pos: i64, prev: i64, g: i64, f: i64, m: i64, dt: i64, lo: i64, hi: i64) -> (np: i64)
    requires
        1 <= m,
        1 <= dt <= MAX_DT,
        mag(g as int) <= MAX_GRAVITY,
        mag(f as int) <= MAX_FORCE,
        lo <= hi,
    ensures
        np == next_axis(pos as int, prev as int, accel_axis(g as int, f as int, m as int), dt as int, lo as int, hi as int),
        lo <= np <= hi,
{
    let fs: i128 = f as i128 * SCALE as i128;
    proof {
        assert(fs == f as int * 1000);
        assert(i128::MIN < fs);
    }
    let fm: i128 = div_tz_i128(fs, m as i128);
    let acc: i128 = g as i128 + fm;
    proof {
        lemma_div_tz_bounds(fs as int, m as int);
        assert(mag(fm as int) <= mag(fs as int)) by (nonlinear_arith)
            requires
                mag(fm as int) * m <= mag(fs as int),
                m >= 1,
                mag(fm as int) >= 0,
        ;
        assert(mag(acc as int) <= MAX_GRAVITY + MAX_FORCE * 1000);
        crate::fixed::lemma_mag_mul(acc as int, dt as int);
        assert(mag(acc as int * dt as int) <= (MAX_GRAVITY + MAX_FORCE * 1000) * MAX_DT) by (nonlinear_arith)
            requires
                mag(acc as int) <= MAX_GRAVITY + MAX_FORCE * 1000,
                1 <= dt <= MAX_DT,
                mag(acc as int * dt as int) == mag(acc as int) * mag(dt as int),
                mag(dt as int) == dt,
        ;
    }
    let t1: i128 = div_tz_i128(acc * dt as i128, SCALE as i128);
    proof {
        lemma_div_tz_bounds(acc as int * dt as int, SCALE as int);
        assert(mag(t1 as int) * 1000 <= mag(acc as int * dt as int));
        assert(mag(t1 as int) <= mag(acc as int * dt as int));
        crate::fixed::lemma_mag_mul(t1 as int, dt as int);
        assert(mag(t1 as int * dt as int) <= ((MAX_GRAVITY + MAX_FORCE * 1000) * MAX_DT) * MAX_DT) by (nonlinear_arith)
            requires
                mag(t1 as int) <= (MAX_GRAVITY + MAX_FORCE * 1000) * MAX_DT,
                1 <= dt <= MAX_DT,
                mag(t1 as int * dt as int) == mag(t1 as int) * mag(dt as int),
                mag(dt as int) == dt,
        ;
    }
    let t2: i128 = div_tz_i128(t1 * dt as i128, SCALE as i128);
    proof {
        lemma_div_tz_bounds(t1 as int * dt as int, SCALE as int);
        assert(mag(t2 as int) * 1000 <= mag(t1 as int * dt as int));
        assert(mag(t2 as int) <= mag(t1 as int * dt as int));
    }
    let raw: i128 = 2 * pos as i128 - prev as i128 + t2;
    if raw < lo as i128 {
        lo
    } else if raw > hi as i128 {
        hi
    } else {
        raw as i64
    }
}

impl Particle {
    /// One Verlet integration step of `dt` under `cfg`: advances the
    /// position under gravity and the pending force, clamps it into the
    /// world, records the pre-step position and clears the force.  The
    /// clamp leaves `previous_position` alone, so a wall hit sheds the
    /// velocity component into the wall on the next derived velocity.
    pub fn calc_physics(&mut self, dt: i64, cfg: &SimConfig)
        requires
            old(self).fits(*cfg),
            cfg.wf(),
            1 <= dt <= MAX_DT,
        ensures
            *final(self) == integrated(*old(self), dt as int, *cfg),
            final(self).in_world(*cfg),
            final(self).fits(*cfg),
            final(self).force.is_zero(),
            final(self).previous_position == old(self).position,
    {
        let nx = step_axis(
            self.position.x,
            self.previous_position.x,
            cfg.gravity.x,
            self.force.x,
            self.mass,
            dt,
            self.radius,
            cfg.width - self.radius,
        );
        let ny = step_axis(
            self.position.y,
            self.previous_position.y,
            cfg.gravity.y,
            self.force.y,
            self.mass,
            dt,
            self.radius,
            cfg.height - self.radius,
        );
        self.previous_position = self.position;
        self.position = Vec2 { x: nx, y: ny };
        self.force = Vec2 { x: 0, y: 0 };
    }
}

/// A resting particle is a fixed point of integration: with no pending
/// force, no gravity, equal current and previous positions, and a position
/// already inside the world, one step moves nothing and records the same
/// position as previous.
pub proof fn lemma_rest_is_fixed_point(p: Particle, dt: int, cfg: SimConfig)
    requires
        p.fits(cfg),
        cfg.wf(),
        1 <= dt <= MAX_DT,
        p.force.is_zero(),
        cfg.gravity.is_zero(),
        p.position == p.previous_position,
        p.in_world(cfg),
    ensures
        integrated(p, dt, cfg).position == p.position,
        integrated(p, dt, cfg).previous_position == p.position,
{
    lemma_div_of0(p.mass as int);
    assert(0 * (SCALE as int) == 0);
    assert(accel_axis(0, 0, p.mass as int) == 0);
    assert(0 * dt == 0);
    lemma_div_of0(SCALE as int);
    assert(verlet_shift(0, dt) == 0);
    assert(2 * (p.position.x as int) - p.previous_position.x == p.position.x);
    assert(2 * (p.position.y as int) - p.previous_position.y == p.position.y);
}

} // verus!
