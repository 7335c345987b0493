use particles::particle::Particle;
use particles::sqrt::ceil_sqrt_u64;
use particles::vec2::Vec2;

fn particle_at(x: i64, y: i64, mass: i64, radius: i64) -> Particle {
    Particle::new(Vec2::new(x, y), mass, radius)
}

#[test]
fn two_touching_circles_separate_two_units() {
    // Radius 5 units each, centres 6 units apart on the x axis: the overlap
    // of 4 units is split 2 and 2, so the distance becomes 10 units.
    let mut a = particle_at(100_000, 100_000, 1000, 5000);
    let mut b = particle_at(106_000, 100_000, 1000, 5000);
    a.calc_collision(&mut b);
    assert_eq!(a.position.x, 98_000);
    assert_eq!(b.position.x, 108_000);
    assert_eq!(a.position.y, 100_000);
    assert_eq!(b.position.y, 100_000);
    assert_eq!(b.position.x - a.position.x, 10_000);
    // previous positions and forces are untouched
    assert_eq!(a.previous_position.x, 100_000);
    assert_eq!(b.previous_position.x, 106_000);
    assert_eq!(a.force.x, 0);
    assert_eq!(b.force.x, 0);
}

#[test]
fn separated_circles_do_not_move() {
    let mut a = particle_at(100_000, 100_000, 1000, 5000);
    let mut b = particle_at(115_000, 100_000, 1000, 5000);
    a.calc_collision(&mut b);
    assert_eq!(a.position.x, 100_000);
    assert_eq!(b.position.x, 115_000);
}

#[test]
fn diagonal_overlap_resolves_to_exact_separation() {
    // Separation (3, 4) units has length 5; radii sum to 10, so the pair
    // moves to exactly 10 units apart along the same direction.
    let mut a = particle_at(200_000, 200_000, 1000, 5000);
    let mut b = particle_at(203_000, 204_000, 1000, 5000);
    a.calc_collision(&mut b);
    assert_eq!(a.position.x, 200_000 - 1500);
    assert_eq!(a.position.y, 200_000 - 2000);
    assert_eq!(b.position.x, 203_000 + 1500);
    assert_eq!(b.position.y, 204_000 + 2000);
    let dx = b.position.x - a.position.x;
    let dy = b.position.y - a.position.y;
    assert_eq!(dx * dx + dy * dy, 10_000i64 * 10_000);
}

#[test]
fn overlap_reduction_is_monotone() {
    // The squared centre distance grows toward the squared radius sum and
    // never passes it.
    let mut a = particle_at(100_000, 100_000, 1000, 5000);
    let mut b = particle_at(106_000, 100_000, 1000, 5000);
    let before = 6_000i64 * 6_000;
    a.calc_collision(&mut b);
    let dx = b.position.x - a.position.x;
    let dy = b.position.y - a.position.y;
    let after = dx * dx + dy * dy;
    assert!(before <= after);
    assert!(after <= 10_000i64 * 10_000);
}

#[test]
fn coincident_centres_separate_along_y() {
    // Identical positions, radius 5 units each: the substitute separation
    // pushes the pair apart vertically by half the penetration each.
    let mut a = particle_at(200_000, 200_000, 1000, 5000);
    let mut b = particle_at(200_000, 200_000, 1000, 5000);
    a.calc_collision(&mut b);
    assert_eq!(a.position.x, 200_000);
    assert_eq!(b.position.x, 200_000);
    assert_eq!(a.position.y, 200_000 - 4999);
    assert_eq!(b.position.y, 200_000 + 4999);
}

#[test]
fn resolution_is_symmetric() {
    let mut a1 = particle_at(100_000, 100_000, 1000, 5000);
    let mut b1 = particle_at(103_000, 104_000, 2000, 4000);
    a1.calc_collision(&mut b1);

    let mut a2 = particle_at(100_000, 100_000, 1000, 5000);
    let mut b2 = particle_at(103_000, 104_000, 2000, 4000);
    b2.calc_collision(&mut a2);

    assert_eq!(a1.position, a2.position);
    assert_eq!(b1.position, b2.position);
}

#[test]
fn ceil_sqrt_exact_values() {
    assert_eq!(ceil_sqrt_u64(0), 0);
    assert_eq!(ceil_sqrt_u64(1), 1);
    assert_eq!(ceil_sqrt_u64(2), 2);
    assert_eq!(ceil_sqrt_u64(3), 2);
    assert_eq!(ceil_sqrt_u64(4), 2);
    assert_eq!(ceil_sqrt_u64(5), 3);
    assert_eq!(ceil_sqrt_u64(36_000_000), 6000);
    assert_eq!(ceil_sqrt_u64(1_000_000_000_000_000_000), 1_000_000_000);
    assert_eq!(ceil_sqrt_u64(999_999_999_999_999_999), 1_000_000_000);
    assert_eq!(ceil_sqrt_u64(u64::MAX), 4_294_967_296);
}
