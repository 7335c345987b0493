use particles::particle::Particle;
use particles::physics::SimConfig;
use particles::vec2::Vec2;
use particles::world::DEFAULT_DT;

fn no_gravity() -> SimConfig {
    SimConfig::new(800_000, 600_000, Vec2::new(0, 0))
}

fn reference_config() -> SimConfig {
    particles::world::default_config()
}

#[test]
fn one_step_under_gravity() {
    // Position (400, 300), previous equal, mass 1, zero force, gravity
    // 98000 units per second squared, dt one millisecond: y grows by
    // 98000 * 0.000001 = 0.098 units, x stays, previous becomes (400, 300).
    let mut p = Particle::new(Vec2::new(400_000, 300_000), 1000, 5000);
    let cfg = reference_config();
    p.calc_physics(DEFAULT_DT, &cfg);
    assert_eq!(p.position.x, 400_000);
    assert_eq!(p.position.y, 300_098);
    assert_eq!(p.previous_position.x, 400_000);
    assert_eq!(p.previous_position.y, 300_000);
    assert_eq!(p.force, Vec2::new(0, 0));
}

#[test]
fn rest_state_is_a_fixed_point() {
    // No force, no gravity, equal positions inside the world: one step
    // moves nothing.
    let mut p = Particle::new(Vec2::new(123_456, 234_567), 7000, 3000);
    let cfg = no_gravity();
    p.calc_physics(DEFAULT_DT, &cfg);
    assert_eq!(p.position, Vec2::new(123_456, 234_567));
    assert_eq!(p.previous_position, Vec2::new(123_456, 234_567));
}

#[test]
fn overshoot_is_clamped_to_the_walls() {
    // Moving 20 units per step toward the right wall: the new position
    // would be 810, the clamp stops it at width minus radius.
    let mut p = Particle::new(Vec2::new(790_000, 300_000), 1000, 5000);
    p.previous_position = Vec2::new(770_000, 300_000);
    let cfg = no_gravity();
    p.calc_physics(DEFAULT_DT, &cfg);
    assert_eq!(p.position.x, 795_000);
    assert_eq!(p.position.y, 300_000);
    assert_eq!(p.previous_position.x, 790_000);

    // And against the left wall.
    let mut q = Particle::new(Vec2::new(6_000, 300_000), 1000, 5000);
    q.previous_position = Vec2::new(26_000, 300_000);
    q.calc_physics(DEFAULT_DT, &cfg);
    assert_eq!(q.position.x, 5_000);
}

#[test]
fn bounds_hold_after_integration() {
    // For several particles, after a step the boundary invariant
    // radius <= x <= width - radius (and likewise for y) holds.
    let cfg = reference_config();
    let starts = [
        (5_000i64, 5_000i64),
        (795_000, 595_000),
        (400_000, 599_000),
        (10_000, 590_000),
    ];
    for &(x, y) in starts.iter() {
        let mut p = Particle::new(Vec2::new(x, y), 1000, 5000);
        p.previous_position = Vec2::new(x - 30_000, y - 30_000);
        p.calc_physics(DEFAULT_DT, &cfg);
        assert!(5000 <= p.position.x && p.position.x <= 795_000);
        assert!(5000 <= p.position.y && p.position.y <= 595_000);
    }
}

#[test]
fn force_is_consumed_by_the_step() {
    // A pending force of 2000 units on mass 2: acceleration 1000 units
    // per second squared adds 1000 * dt * dt = 0.001 sub-units, which
    // truncates to zero at this timestep; the force is reset either way.
    let mut p = Particle::new(Vec2::new(400_000, 300_000), 2000, 5000);
    p.force = Vec2::new(2_000_000, 0);
    let cfg = no_gravity();
    p.calc_physics(DEFAULT_DT, &cfg);
    // acceleration 1000000 sub-units/s^2: shift = 1000000*1/1000*1/1000 = 1
    assert_eq!(p.position.x, 400_001);
    assert_eq!(p.force, Vec2::new(0, 0));
}

#[test]
fn velocity_is_position_minus_previous() {
    let mut p = Particle::new(Vec2::new(10, 4), 1, 1);
    p.previous_position = Vec2::new(3, 9);
    let v = p.get_velocity();
    assert_eq!(v.x, 7);
    assert_eq!(v.y, -5);
}

#[test]
fn construction_rejects_bad_parameters() {
    assert!(Particle::checked_new(Vec2::new(0, 0), 0, 5).is_none());
    assert!(Particle::checked_new(Vec2::new(0, 0), 5, 0).is_none());
    assert!(Particle::checked_new(Vec2::new(0, 0), -3, 5).is_none());
    let p = Particle::checked_new(Vec2::new(1, 2), 5, 7).unwrap();
    assert_eq!(p.position, Vec2::new(1, 2));
    assert_eq!(p.previous_position, Vec2::new(1, 2));
    assert_eq!(p.mass, 5);
    assert_eq!(p.radius, 7);
    assert_eq!(p.force, Vec2::new(0, 0));
}
