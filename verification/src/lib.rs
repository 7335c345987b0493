//! A 2D particle physics kernel over exact fixed-point coordinates.
//!
//! A fixed set of circular bodies is advanced by Verlet integration under
//! gravity and externally applied forces, with pairwise overlap resolution
//! and boundary containment, once per frame at a fixed timestep.  Every
//! quantity is a count of fixed-point sub-units (see [`fixed::SCALE`]), so
//! each formula of the kernel is stated and proved exactly.

pub mod collision;
pub mod color;
pub mod fixed;
pub mod particle;
pub mod physics;
pub mod sqrt;
pub mod vec2;
pub mod world;
