//! The particle: a circular body with Verlet position history.

use crate::fixed::{mag, MAX_START_COORD};
use crate::physics::{SimConfig, MAX_FORCE};
use crate::vec2::Vec2;
use vstd::prelude::*;

verus! {

/// A circular body.  Velocity is not stored: it is implicit in the
/// difference between `position` and `previous_position`, one timestep ago.
/// `force` is the external force accumulated for the current step only; the
/// integrator consumes it and resets it to zero.
#[derive(Clone, Copy, Debug, PartialEq, Eq, Structural)]
pub struct Particle {
    pub position: Vec2,
    pub previous_position: Vec2,
    pub force: Vec2,
    pub mass: i64,
    pub radius: i64,
}

impl Particle {
    /// Mass and radius are strictly positive, for every particle at all times.
    pub open spec fn wf(self) -> bool {
        self.mass >= 1 && self.radius >= 1
    }

    /// The particle can live in the world of `cfg`: it is well formed, its
    /// diameter fits the world on both axes, and its pending force is within
    /// the range the integrator accepts.
    pub open spec fn fits(self, cfg: SimConfig) -> bool {
        &&& self.wf()
        &&& 2 * self.radius <= cfg.width
        &&& 2 * self.radius <= cfg.height
        &&& mag(self.force.x as int) <= MAX_FORCE
        &&& mag(self.force.y as int) <= MAX_FORCE
    }

    /// The particle lies entirely inside the world bounds of `cfg`.
    pub open spec fn in_world(self, cfg: SimConfig) -> bool {
        &&& self.radius <= self.position.x <= cfg.width - self.radius
        &&& self.radius <= self.position.y <= cfg.height - self.radius
    }

    /// Both stored positions are within `bound` of the origin on each axis.
    pub open spec fn coords_within(self, bound: int) -> bool {
        &&& mag(self.position.x as int) <= bound
        &&& mag(self.position.y as int) <= bound
    }

    /// Whether the start-of-frame coordinate bound holds.
    pub open spec fn start_coords(self) -> bool {
        self.coords_within(MAX_START_COORD as int)
    }

    /// Constructs a resting particle: both stored positions at `position`,
    /// no pending force.  Non-positive mass or radius is a caller error.
    pub fn new(position: Vec2, mass: i64, radius: i64) -> (p: Particle)
        requires
            mass >= 1,
            radius >= 1,
        ensures
            p.position == position,
            p.previous_position == position,
            p.force.is_zero(),
            p.mass == mass,
            p.radius == radius,
            p.wf(),
    {
        Particle {
            position,
            previous_position: position,
            force: Vec2 { x: 0, y: 0 },
            mass,
            radius,
        }
    }

    /// Constructs a particle, rejecting non-positive mass or radius.
    pub fn checked_new(position: Vec2, mass: i64, radius: i64) -> (p: Option<Particle>)
        ensures
            p.is_some() <==> (mass >= 1 && radius >= 1),
            p.is_some() ==> {
                let q = p.unwrap();
                &&& q.position == position
                &&& q.previous_position == position
                &&& q.force.is_zero()
                &&& q.mass == mass
                &&& q.radius == radius
            },
    {
        if mass >= 1 && radius >= 1 {
            Some(Particle::new(position, mass, radius))
        } else {
            None
        }
    }

    /// The velocity the Verlet scheme encodes: current minus previous position.
    pub fn get_velocity(&self) -> (v: Vec2)
        requires
            i64::MIN <= self.position.x - self.previous_position.x <= i64::MAX,
            i64::MIN <= self.position.y - self.previous_position.y <= i64::MAX,
        ensures
            v.x == self.position.x - self.previous_position.x,
            v.y == self.position.y - self.previous_position.y,
    {
        Vec2 {
            x: self.position.x - self.previous_position.x,
            y: self.position.y - self.previous_position.y,
        }
    }
}

} // verus!
