use particles::color::color_for;
use particles::particle::Particle;
use particles::physics::SimConfig;
use particles::vec2::Vec2;
use particles::world::{
    advance, apply_force, collision_pass, default_config, default_layout, integration_pass,
    DEFAULT_DT,
};

fn particle_at(x: i64, y: i64, mass: i64, radius: i64) -> Particle {
    Particle::new(Vec2::new(x, y), mass, radius)
}

fn no_gravity() -> SimConfig {
    SimConfig::new(800_000, 600_000, Vec2::new(0, 0))
}

#[test]
fn collision_pass_resolves_the_touching_pair() {
    // The two-particle scenario through the pass: the second visit of the
    // pair finds them exactly separated, so the result matches a single
    // resolution: 2 units of movement each.
    let mut v = vec![
        particle_at(100_000, 100_000, 1000, 5000),
        particle_at(106_000, 100_000, 1000, 5000),
    ];
    collision_pass(&mut v);
    assert_eq!(v[0].position.x, 98_000);
    assert_eq!(v[1].position.x, 108_000);
    assert_eq!(v[0].position.y, 100_000);
    assert_eq!(v[1].position.y, 100_000);
}

#[test]
fn advance_runs_collisions_then_integration() {
    // Zero gravity: the collision pass moves the pair 2 units apart; the
    // integration step then carries each on with the velocity the
    // correction induced (2 units per step, outward).
    let mut v = vec![
        particle_at(100_000, 100_000, 1000, 5000),
        particle_at(106_000, 100_000, 1000, 5000),
    ];
    let cfg = no_gravity();
    advance(&mut v, DEFAULT_DT, &cfg);
    assert_eq!(v[0].position.x, 96_000);
    assert_eq!(v[0].previous_position.x, 98_000);
    assert_eq!(v[1].position.x, 110_000);
    assert_eq!(v[1].previous_position.x, 108_000);
    assert_eq!(v[0].position.y, 100_000);
    assert_eq!(v[1].position.y, 100_000);
    assert_eq!(v[0].force, Vec2::new(0, 0));
}

#[test]
fn advance_keeps_every_particle_in_bounds() {
    let mut v = default_layout();
    let cfg = default_config();
    for _ in 0..50 {
        advance(&mut v, DEFAULT_DT, &cfg);
        for p in v.iter() {
            assert!(p.radius <= p.position.x && p.position.x <= 800_000 - p.radius);
            assert!(p.radius <= p.position.y && p.position.y <= 600_000 - p.radius);
            assert_eq!(p.force, Vec2::new(0, 0));
        }
    }
}

#[test]
fn integration_pass_is_independent_per_particle() {
    let mut v = vec![
        particle_at(400_000, 300_000, 1000, 5000),
        particle_at(100_000, 100_000, 1000, 5000),
    ];
    let cfg = default_config();
    integration_pass(&mut v, DEFAULT_DT, &cfg);
    assert_eq!(v[0].position.y, 300_098);
    assert_eq!(v[1].position.y, 100_098);
    assert_eq!(v[0].position.x, 400_000);
    assert_eq!(v[1].position.x, 100_000);
}

#[test]
fn default_layout_reproduces_the_seed() {
    let v = default_layout();
    assert_eq!(v.len(), 101);
    // grid corner: column 0, row 0
    assert_eq!(v[0].position, Vec2::new(0, 0));
    assert_eq!(v[0].mass, 1000);
    assert_eq!(v[0].radius, 1000);
    // column 2, row 3: position (28, 42) units, mass and radius 3 units
    assert_eq!(v[23].position, Vec2::new(28_000, 42_000));
    assert_eq!(v[23].mass, 3000);
    assert_eq!(v[23].radius, 3000);
    // column 9, row 9
    assert_eq!(v[99].position, Vec2::new(126_000, 126_000));
    assert_eq!(v[99].mass, 10_000);
    // the extra particle
    assert_eq!(v[100].position, Vec2::new(315_000, 20_000));
    assert_eq!(v[100].mass, 1000);
    assert_eq!(v[100].radius, 5000);
    for p in v.iter() {
        assert_eq!(p.previous_position, p.position);
        assert_eq!(p.force, Vec2::new(0, 0));
    }
}

#[test]
fn force_field_is_inverse_square_repulsion() {
    // One unit to the right of the point: force = k * dx / |d|^2.
    let mut v = vec![particle_at(101_000, 100_000, 1000, 5000)];
    apply_force(&mut v, Vec2::new(100_000, 100_000), 1_000_000_000);
    // dx = 1000, d2 = 1000000: fx = 1000 * 1e9 / 1e6 = 1e6
    assert_eq!(v[0].force, Vec2::new(1_000_000, 0));
    // position is untouched
    assert_eq!(v[0].position, Vec2::new(101_000, 100_000));
}

#[test]
fn force_field_skips_a_particle_at_the_point() {
    let mut v = vec![particle_at(100_000, 100_000, 1000, 5000)];
    v[0].force = Vec2::new(7, 8);
    apply_force(&mut v, Vec2::new(100_000, 100_000), 1_000_000_000);
    assert_eq!(v[0].force, Vec2::new(7, 8));
}

#[test]
fn force_field_overwrites_pending_force() {
    let mut v = vec![particle_at(100_000, 104_000, 1000, 5000)];
    v[0].force = Vec2::new(123, 456);
    apply_force(&mut v, Vec2::new(100_000, 100_000), 1_000_000_000);
    // dy = 4000, d2 = 16000000: fy = 4000 * 1e9 / 16e6 = 250000
    assert_eq!(v[0].force, Vec2::new(0, 250_000));
}

#[test]
fn force_magnitude_never_exceeds_strength() {
    // The closest representable separation gives the largest force: one
    // sub-unit away, the force equals the strength exactly.
    let mut v = vec![particle_at(100_001, 100_000, 1000, 5000)];
    apply_force(&mut v, Vec2::new(100_000, 100_000), 1_000_000_000);
    assert_eq!(v[0].force, Vec2::new(1_000_000_000, 0));
    assert!(v[0].force.x.abs() <= 1_000_000_000);
}

#[test]
fn color_mapping_is_exact() {
    let cfg = default_config();
    // mid-world: 400/800 * 255 = 127.5, rounded half up to 128
    let c = color_for(Vec2::new(400_000, 300_000), &cfg);
    assert_eq!(c, (127, 127, 255));
    // the origin keeps full red and green
    assert_eq!(color_for(Vec2::new(0, 0), &cfg), (255, 255, 255));
    // the far corner drops them to zero
    assert_eq!(color_for(Vec2::new(800_000, 600_000), &cfg), (0, 0, 255));
    // an uneven position: 100/800 * 255 = 31.875 -> 32; 450/600 * 255 = 191.25 -> 191
    assert_eq!(color_for(Vec2::new(100_000, 450_000), &cfg), (223, 64, 255));
}
