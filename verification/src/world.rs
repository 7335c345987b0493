//! The per-frame simulation step and its surroundings: the all-pairs
//! collision pass, the integration pass, the force-field input mapping and
//! the seed layout.

use crate::collision::{collide_shift, lemma_collide_shift_bound};
use crate::fixed::{div_tz, div_tz_i128, lemma_div_tz_bounds, lemma_mag_mul, lemma_mag_sq, mag,
    MAX_MID_COORD, MAX_START_COORD, SCALE};
use crate::particle::Particle;
use crate::physics::{integrated, SimConfig, MAX_DT, MAX_FORCE, MAX_WORLD};
use crate::vec2::Vec2;
use vstd::arithmetic::div_mod::{
    lemma_div_multiples_vanish_fancy, lemma_div_pos_is_pos, lemma_fundamental_div_mod,
    lemma_mod_bound, lemma_mod_multiples_vanish, lemma_small_mod,
};
use vstd::prelude::*;

verus! {

/// Largest particle count one simulation step accepts.
pub const MAX_PARTICLES: usize = 10_000;

/// The timestep of the reference scenario: one sub-unit of a second,
/// matching a 1000-steps-per-second pacing.
pub const DEFAULT_DT: i64 = 1;

/// Every particle of `s` is well formed, fits the world by diameter, and
/// has its position within `bound` of the origin on each axis.
pub open spec fn pass_ready(s: Seq<Particle>, bound: int) -> bool {
    forall|t: int|
        0 <= t < s.len() ==> {
            &&& (#[trigger] s[t]).wf()
            &&& 2 * s[t].radius <= MAX_WORLD
            &&& s[t].coords_within(bound)
        }
}

/// The sequence `s` with the pair `(i, j)` resolved: entry `i` moves back
/// by the half-correction, entry `j` forward, all else untouched.
pub open spec fn step_pair(s: Seq<Particle>, i: int, j: int) -> Seq<Particle> {
    let a = s[i];
    let b = s[j];
    let c = collide_shift(
        b.position.x - a.position.x,
        b.position.y - a.position.y,
        a.radius + b.radius,
    );
    s.update(
        i,
        Particle {
            position: Vec2 { x: (a.position.x - c.0) as i64, y: (a.position.y - c.1) as i64 },
            ..a
        },
    ).update(
        j,
        Particle {
            position: Vec2 { x: (b.position.x + c.0) as i64, y: (b.position.y + c.1) as i64 },
            ..b
        },
    )
}

/// The first `k` steps of the pair scan over `s`: ordered pairs `(i, j)`
/// in ascending `i`-then-`j` order, self-pairs skipped.
pub open spec fn pass_upto(s: Seq<Particle>, k: nat) -> Seq<Particle>
    decreases k,
{
    if k == 0 {
        s
    } else {
        let prev = pass_upto(s, (k - 1) as nat);
        let i = (k - 1) as int / s.len() as int;
        let j = (k - 1) as int % s.len() as int;
        if i == j {
            prev
        } else {
            step_pair(prev, i, j)
        }
    }
}

/// The particle sequence after one full collision pass: every ordered pair
/// of distinct indices visited exactly once, in a fixed deterministic order.
pub open spec fn collision_passed(s: Seq<Particle>) -> Seq<Particle> {
    pass_upto(s, (s.len() * s.len()) as nat)
}

/// The quotient and remainder of a pair index are in-range indices.
proof fn lemma_pair_indices(x: int, n: int)
    requires
        0 <= x,
        x < n * n,
        1 <= n,
    ensures
        0 <= x / n < n,
        0 <= x % n < n,
{
    lemma_fundamental_div_mod(x, n);
    lemma_div_pos_is_pos(x, n);
    lemma_mod_bound(x, n);
    assert(x / n < n) by (nonlinear_arith)
        requires
            x == n * (x / n) + x % n,
            0 <= x % n,
            x < n * n,
            n >= 1,
            0 <= x / n,
    ;
}

/// Through the pair scan every field but the position is untouched, and
/// positions drift by at most one radius sum per step taken.
proof fn lemma_pass_upto_props(s: Seq<Particle>, k: nat)
    requires
        s.len() <= MAX_PARTICLES,
        k <= s.len() * s.len(),
        pass_ready(s, MAX_START_COORD as int),
    ensures
        pass_upto(s, k).len() == s.len(),
        forall|t: int|
            0 <= t < s.len() ==> {
                let c = #[trigger] pass_upto(s, k)[t];
                &&& c.mass == s[t].mass
                &&& c.radius == s[t].radius
                &&& c.previous_position == s[t].previous_position
                &&& c.force == s[t].force
                &&& c.coords_within(MAX_START_COORD + k * (MAX_WORLD as int))
            },
    decreases k,
{
    if k == 0 {
    } else {
        lemma_pass_upto_props(s, (k - 1) as nat);
        let prev = pass_upto(s, (k - 1) as nat);
        let n = s.len() as int;
        assert(n >= 1) by (nonlinear_arith)
            requires
                k >= 1,
                k <= n * n,
                n >= 0,
        ;
        let i = (k - 1) as int / n;
        let j = (k - 1) as int % n;
        lemma_pair_indices((k - 1) as int, n);
        let bound_prev = MAX_START_COORD + (k - 1) as int * (MAX_WORLD as int);
        let bound = MAX_START_COORD + k as int * (MAX_WORLD as int);
        assert(bound_prev + MAX_WORLD == bound);
        if i == j {
        } else {
            let a = prev[i];
            let b = prev[j];
            let maxr = a.radius + b.radius;
            assert(2 <= maxr <= MAX_WORLD);
            lemma_collide_shift_bound(
                b.position.x - a.position.x,
                b.position.y - a.position.y,
                maxr,
            );
            let c = collide_shift(
                b.position.x - a.position.x,
                b.position.y - a.position.y,
                maxr,
            );
            assert(mag(a.position.x - c.0) <= bound);
            assert(mag(a.position.y - c.1) <= bound);
            assert(mag(b.position.x + c.0) <= bound);
            assert(mag(b.position.y + c.1) <= bound);
            assert(bound <= MAX_START_COORD + (MAX_PARTICLES * MAX_PARTICLES) as int * (
            MAX_WORLD as int)) by (nonlinear_arith)
                requires
                    k <= s.len() * s.len(),
                    s.len() <= MAX_PARTICLES,
                    bound == MAX_START_COORD + k * (MAX_WORLD as int),
            ;
        }
    }
}

/// Runs the collision pass: every ordered pair of distinct particles is
/// resolved once, ascending outer index, then ascending inner index, the
/// order the functional spec `collision_passed` fixes.
pub fn collision_pass(particles: &mut Vec<Particle>)
    requires
        old(particles).len() <= MAX_PARTICLES,
        pass_ready(old(particles)@, MAX_START_COORD as int),
    ensures
        final(particles)@ == collision_passed(old(particles)@),
        final(particles).len() == old(particles).len(),
{
    let ghost s0 = particles@;
    let n = particles.len();
    let mut i: usize = 0;
    while i < n
        invariant
            n == s0.len(),
            particles@.len() == n,
            i <= n,
            s0.len() <= MAX_PARTICLES,
            pass_ready(s0, MAX_START_COORD as int),
            particles@ == pass_upto(s0, (i * n) as nat),
        decreases n - i,
    {
        let mut j: usize = 0;
        proof {
            assert(i * n + 0 == i * n);
        }
        while j < n
            invariant
                n == s0.len(),
                particles@.len() == n,
                i < n,
                j <= n,
                s0.len() <= MAX_PARTICLES,
                pass_ready(s0, MAX_START_COORD as int),
                particles@ == pass_upto(s0, (i * n + j) as nat),
            decreases n - j,
        {
            let ghost k: int = i * n + j;
            proof {
                assert(0 <= k && k < n * n) by (nonlinear_arith)
                    requires
                        k == i * n + j,
                        0 <= i < n,
                        0 <= j < n,
                ;
                assert(k + 1 <= n * n) by (nonlinear_arith)
                    requires
                        k < n * n,
                ;
                lemma_pass_upto_props(s0, k as nat);
                lemma_pass_upto_props(s0, (k + 1) as nat);
                lemma_div_multiples_vanish_fancy(i as int, j as int, n as int);
                lemma_mod_multiples_vanish(i as int, j as int, n as int);
                lemma_small_mod(j as nat, n as nat);
                assert((n * i as int + j as int) == k);
                assert(k / n as int == i);
                assert(k % n as int == j);
                assert(MAX_START_COORD + k * (MAX_WORLD as int) <= MAX_MID_COORD)
                    by (nonlinear_arith)
                    requires
                        0 <= k,
                        k < n * n,
                        n <= MAX_PARTICLES,
                ;
            }
            if i != j {
                let mut a = particles[i];
                let mut b = particles[j];
                a.calc_collision(&mut b);
                particles.set(i, a);
                particles.set(j, b);
                proof {
                    let prev = pass_upto(s0, k as nat);
                    assert(particles@ =~= step_pair(prev, i as int, j as int));
                    assert(pass_upto(s0, (k + 1) as nat) == step_pair(prev, i as int, j as int));
                    assert((i * n + (j + 1)) as int == k + 1);
                }
            } else {
                proof {
                    assert(pass_upto(s0, (k + 1) as nat) == pass_upto(s0, k as nat));
                    assert((i * n + (j + 1)) as int == k + 1);
                }
            }
            j += 1;
        }
        proof {
            assert((i + 1) * n == i * n + n) by (nonlinear_arith);
        }
        i += 1;
    }
    proof {
        assert((i * n) as nat == (s0.len() * s0.len()) as nat);
    }
}

/// The sequence with every particle integrated by one step of `dt` under `cfg`.
pub open spec fn integrated_all(s: Seq<Particle>, dt: int, cfg: SimConfig) -> Seq<Particle> {
    s.map_values(|p: Particle| integrated(p, dt, cfg))
}

/// Runs the integration pass: every particle advanced independently by one
/// Verlet step, clamped into the world, its force consumed.
pub fn integration_pass(particles: &mut Vec<Particle>, dt: i64, cfg: &SimConfig)
    requires
        cfg.wf(),
        1 <= dt <= MAX_DT,
        forall|t: int|
            0 <= t < old(particles).len() ==> (#[trigger] old(particles)@[t]).fits(*cfg),
    ensures
        final(particles)@ == integrated_all(old(particles)@, dt as int, *cfg),
        final(particles).len() == old(particles).len(),
        forall|t: int|
            0 <= t < final(particles).len() ==> {
                let p = #[trigger] final(particles)@[t];
                &&& p.in_world(*cfg)
                &&& p.fits(*cfg)
                &&& p.force.is_zero()
            },
{
    let ghost s0 = particles@;
    let n = particles.len();
    let mut t: usize = 0;
    while t < n
        invariant
            n == s0.len(),
            particles@.len() == n,
            t <= n,
            cfg.wf(),
            1 <= dt <= MAX_DT,
            forall|u: int| 0 <= u < n ==> (#[trigger] s0[u]).fits(*cfg),
            forall|u: int|
                0 <= u < t ==> #[trigger] particles@[u] == integrated(s0[u], dt as int, *cfg),
            forall|u: int|
                0 <= u < t ==> {
                    let p = #[trigger] particles@[u];
                    &&& p.in_world(*cfg)
                    &&& p.fits(*cfg)
                    &&& p.force.is_zero()
                },
            forall|u: int| t <= u < n ==> #[trigger] particles@[u] == s0[u],
        decreases n - t,
    {
        let mut p = particles[t];
        p.calc_physics(dt, cfg);
        particles.set(t, p);
        t += 1;
    }
    proof {
        assert(particles@ =~= integrated_all(s0, dt as int, *cfg));
    }
}

/// One simulation step: the collision pass over all ordered pairs of
/// distinct particles, then the integration pass over every particle.
/// Afterwards every particle lies inside the world with its force consumed.
pub fn advance(particles: &mut Vec<Particle>, dt: i64, cfg: &SimConfig)
    requires
        cfg.wf(),
        1 <= dt <= MAX_DT,
        old(particles).len() <= MAX_PARTICLES,
        forall|t: int|
            0 <= t < old(particles).len() ==> {
                let p = #[trigger] old(particles)@[t];
                &&& p.fits(*cfg)
                &&& p.start_coords()
            },
    ensures
        final(particles)@ == integrated_all(
            collision_passed(old(particles)@),
            dt as int,
            *cfg,
        ),
        final(particles).len() == old(particles).len(),
        forall|t: int|
            0 <= t < final(particles).len() ==> {
                let p = #[trigger] final(particles)@[t];
                &&& p.in_world(*cfg)
                &&& p.fits(*cfg)
                &&& p.force.is_zero()
                &&& p.start_coords()
            },
{
    let ghost s0 = particles@;
    proof {
        assert forall|t: int| 0 <= t < s0.len() implies {
            &&& (#[trigger] s0[t]).wf()
            &&& 2 * s0[t].radius <= MAX_WORLD
            &&& s0[t].coords_within(MAX_START_COORD as int)
        } by {
            assert(s0[t].fits(*cfg));
        }
    }
    collision_pass(particles);
    proof {
        lemma_pass_upto_props(s0, (s0.len() * s0.len()) as nat);
        assert forall|t: int| 0 <= t < particles@.len() implies (
        #[trigger] particles@[t]).fits(*cfg) by {
            assert(particles@[t].mass == s0[t].mass);
            assert(particles@[t].radius == s0[t].radius);
            assert(particles@[t].force == s0[t].force);
            assert(s0[t].fits(*cfg));
        }
    }
    integration_pass(particles, dt, cfg);
    proof {
        assert forall|t: int| 0 <= t < particles@.len() implies (
        #[trigger] particles@[t]).start_coords() by {
            assert(particles@[t].in_world(*cfg));
        }
    }
}

/// The force the field at `point` with strength `k` puts on a particle at
/// `pos`: the separation scaled by `k` over its squared length, an exact
/// inverse-square repulsion.  At `pos == point` the direction is undefined
/// and the field is skipped: the pending force stays as it was.
pub open spec fn field_shift(pos: Vec2, point: Vec2, k: int) -> (int, int) {
    let dx = pos.x - point.x;
    let dy = pos.y - point.y;
    (div_tz(dx * k, dx * dx + dy * dy), div_tz(dy * k, dx * dx + dy * dy))
}

/// The particle with the field force of `point` applied, or unchanged when
/// it sits exactly at `point`.
pub open spec fn forced(p: Particle, point: Vec2, k: int) -> Particle {
    if p.position.x == point.x && p.position.y == point.y {
        p
    } else {
        Particle {
            force: Vec2 {
                x: field_shift(p.position, point, k).0 as i64,
                y: field_shift(p.position, point, k).1 as i64,
            },
            ..p
        }
    }
}

/// Applies the field of `point` to one particle; the resulting force
/// components never exceed `strength` in magnitude.
fn apply_field(p: &mut Particle, point: Vec2, strength: i64)
    requires
        0 <= strength <= MAX_FORCE,
        old(p).start_coords(),
        mag(point.x as int) <= MAX_START_COORD,
        mag(point.y as int) <= MAX_START_COORD,
    ensures
        *final(p) == forced(*old(p), point, strength as int),
        final(p).force == old(p).force || (mag(final(p).force.x as int) <= strength && mag(
        final(p).force.y as int) <= strength),
{
    let dx: i64 = p.position.x - point.x;
    let dy: i64 = p.position.y - point.y;
    if dx == 0 && dy == 0 {
        proof {
            assert(*p == forced(*p, point, strength as int));
        }
    } else {
        proof {
            lemma_mag_sq(dx as int);
            lemma_mag_sq(dy as int);
            assert(mag(dx as int) <= 2 * MAX_START_COORD);
            assert(mag(dy as int) <= 2 * MAX_START_COORD);
            crate::fixed::lemma_sq_mono(mag(dx as int), 2 * MAX_START_COORD as int);
            crate::fixed::lemma_sq_mono(mag(dy as int), 2 * MAX_START_COORD as int);
            if dx != 0 {
                assert(dx as int * dx as int >= 1) by (nonlinear_arith)
                    requires
                        dx != 0,
                ;
                assert(dy as int * dy as int >= 0) by (nonlinear_arith);
            } else {
                assert(dy as int * dy as int >= 1) by (nonlinear_arith)
                    requires
                        dy != 0,
                ;
                assert(dx as int * dx as int >= 0) by (nonlinear_arith);
            }
        }
        let d2: i128 = dx as i128 * dx as i128 + dy as i128 * dy as i128;
        proof {
            lemma_mag_mul(dx as int, strength as int);
            lemma_mag_mul(dy as int, strength as int);
            assert(mag(dx as int * strength as int) <= (2 * MAX_START_COORD) * MAX_FORCE)
                by (nonlinear_arith)
                requires
                    mag(dx as int * strength as int) == mag(dx as int) * mag(strength as int),
                    mag(dx as int) <= 2 * MAX_START_COORD,
                    0 <= mag(strength as int) <= MAX_FORCE,
            ;
            assert(mag(dy as int * strength as int) <= (2 * MAX_START_COORD) * MAX_FORCE)
                by (nonlinear_arith)
                requires
                    mag(dy as int * strength as int) == mag(dy as int) * mag(strength as int),
                    mag(dy as int) <= 2 * MAX_START_COORD,
                    0 <= mag(strength as int) <= MAX_FORCE,
            ;
        }
        let fx: i128 = div_tz_i128(dx as i128 * strength as i128, d2);
        let fy: i128 = div_tz_i128(dy as i128 * strength as i128, d2);
        proof {
            lemma_div_tz_bounds(dx as int * strength as int, d2 as int);
            lemma_div_tz_bounds(dy as int * strength as int, d2 as int);
            lemma_mag_mul(dx as int, strength as int);
            lemma_mag_mul(dy as int, strength as int);
            assert(mag(fx as int) <= strength) by (nonlinear_arith)
                requires
                    mag(fx as int) * d2 <= mag(dx as int) * strength,
                    mag(dx as int) * mag(dx as int) <= d2,
                    0 <= mag(fx as int),
                    0 <= mag(dx as int),
                    0 <= strength,
                    1 <= d2,
                    mag(dx as int) * mag(dx as int) == dx as int * dx as int,
                    mag(dy as int) * mag(dy as int) == dy as int * dy as int,
                    d2 == dx as int * dx as int + dy as int * dy as int,
            ;
            assert(mag(fy as int) <= strength) by (nonlinear_arith)
                requires
                    mag(fy as int) * d2 <= mag(dy as int) * strength,
                    0 <= mag(fy as int),
                    0 <= mag(dy as int),
                    0 <= strength,
                    1 <= d2,
                    mag(dx as int) * mag(dx as int) == dx as int * dx as int,
                    mag(dy as int) * mag(dy as int) == dy as int * dy as int,
                    d2 == dx as int * dx as int + dy as int * dy as int,
            ;
        }
        p.force = Vec2 { x: fx as i64, y: fy as i64 };
    }
}

/// Applies the inverse-square repulsion of the field at `point` with
/// strength `strength` to every particle, overwriting any pending force;
/// a particle exactly at `point` keeps its pending force (the one
/// degenerate case of the field, handled by skipping).
pub fn apply_force(particles: &mut Vec<Particle>, point: Vec2, strength: i64)
    requires
        0 <= strength <= MAX_FORCE,
        mag(point.x as int) <= MAX_START_COORD,
        mag(point.y as int) <= MAX_START_COORD,
        forall|t: int|
            0 <= t < old(particles).len() ==> (#[trigger] old(particles)@[t]).start_coords(),
    ensures
        final(particles)@ == old(particles)@.map_values(
            |p: Particle| forced(p, point, strength as int),
        ),
        final(particles).len() == old(particles).len(),
{
    let ghost s0 = particles@;
    let n = particles.len();
    let mut t: usize = 0;
    while t < n
        invariant
            n == s0.len(),
            particles@.len() == n,
            t <= n,
            0 <= strength <= MAX_FORCE,
            mag(point.x as int) <= MAX_START_COORD,
            mag(point.y as int) <= MAX_START_COORD,
            forall|u: int| 0 <= u < n ==> (#[trigger] s0[u]).start_coords(),
            forall|u: int|
                0 <= u < t ==> #[trigger] particles@[u] == forced(s0[u], point, strength as int),
            forall|u: int| t <= u < n ==> #[trigger] particles@[u] == s0[u],
        decreases n - t,
    {
        let mut p = particles[t];
        apply_field(&mut p, point, strength);
        particles.set(t, p);
        t += 1;
    }
    proof {
        assert(particles@ =~= s0.map_values(|p: Particle| forced(p, point, strength as int)));
    }
}

/// The `k`-th particle of the reference layout: a 10 by 10 grid spaced 14
/// units apart, column `c` carrying mass and radius `c + 1` units, plus one
/// extra particle of mass 1 and radius 5 at (315, 20) units.
pub open spec fn seed_particle(k: int) -> Particle {
    if 0 <= k < 100 {
        let gx = k / 10;
        let gy = k % 10;
        Particle {
            position: Vec2 {
                x: (14 * (SCALE as int) * gx) as i64,
                y: (14 * (SCALE as int) * gy) as i64,
            },
            previous_position: Vec2 {
                x: (14 * (SCALE as int) * gx) as i64,
                y: (14 * (SCALE as int) * gy) as i64,
            },
            force: Vec2 { x: 0, y: 0 },
            mass: ((gx + 1) * (SCALE as int)) as i64,
            radius: ((gx + 1) * (SCALE as int)) as i64,
        }
    } else {
        Particle {
            position: Vec2 { x: (315 * (SCALE as int)) as i64, y: (20 * (SCALE as int)) as i64 },
            previous_position: Vec2 {
                x: (315 * (SCALE as int)) as i64,
                y: (20 * (SCALE as int)) as i64,
            },
            force: Vec2 { x: 0, y: 0 },
            mass: SCALE,
            radius: (5 * (SCALE as int)) as i64,
        }
    }
}

/// Builds the reference layout: 101 particles, the grid first in
/// column-major order, the extra particle last.
pub fn default_layout() -> (v: Vec<Particle>)
    ensures
        v@.len() == 101,
        forall|k: int| 0 <= k < 101 ==> #[trigger] v@[k] == seed_particle(k),
{
    let mut v: Vec<Particle> = Vec::new();
    let mut gx: usize = 0;
    while gx < 10
        invariant
            gx <= 10,
            v@.len() == 10 * gx,
            forall|k: int| 0 <= k < v@.len() ==> #[trigger] v@[k] == seed_particle(k),
        decreases 10 - gx,
    {
        let mut gy: usize = 0;
        while gy < 10
            invariant
                gx < 10,
                gy <= 10,
                v@.len() == 10 * gx + gy,
                forall|k: int| 0 <= k < v@.len() ==> #[trigger] v@[k] == seed_particle(k),
            decreases 10 - gy,
        {
            let px: i64 = 14_000 * (gx as i64);
            let py: i64 = 14_000 * (gy as i64);
            let m: i64 = (gx as i64 + 1) * 1000;
            let p = Particle::new(Vec2::new(px, py), m, m);
            v.push(p);
            proof {
                let k: int = 10 * gx + gy;
                lemma_div_multiples_vanish_fancy(gx as int, gy as int, 10);
                lemma_mod_multiples_vanish(gx as int, gy as int, 10);
                lemma_small_mod(gy as nat, 10);
                assert(k / 10 == gx);
                assert(k % 10 == gy);
                assert(v@[k] == seed_particle(k));
            }
            gy += 1;
        }
        gx += 1;
    }
    let extra = Particle::new(Vec2::new(315_000, 20_000), 1000, 5000);
    v.push(extra);
    v
}

/// The configuration of the reference scenario: an 800 by 600 unit world
/// under a downward gravity of 98000 units per second squared.
pub fn default_config() -> (c: SimConfig)
    ensures
        c.width == 800 * (SCALE as int),
        c.height == 600 * (SCALE as int),
        c.gravity.x == 0,
        c.gravity.y == 98_000 * (SCALE as int),
        c.wf(),
{
    SimConfig::new(800_000, 600_000, Vec2::new(0, 98_000_000))
}

} // verus!
