use dla::geometry::{isqrt, lerp, UNIT};
use dla::{Plane, Vec3d};

#[test]
fn integer_square_roots() {
    assert_eq!(isqrt(0), 0);
    assert_eq!(isqrt(1), 1);
    assert_eq!(isqrt(15), 3);
    assert_eq!(isqrt(16), 4);
    assert_eq!(isqrt(17), 4);
    assert_eq!(isqrt(u128::MAX), u64::MAX as u128);
}

#[test]
fn lengths_and_distances() {
    let v = Vec3d::new(30_000, -40_000, 0);
    assert_eq!(v.length_squared(), 2_500_000_000);
    assert_eq!(v.length(), 50_000);
    assert_eq!(Vec3d::new(1, 1, 1).length(), 1);
    assert_eq!(Vec3d::new(2, 3, 6).distance(Vec3d::zero()), 7);
    assert_eq!(Vec3d::new(10, 10, 10).distance(Vec3d::new(13, 14, 10)), 5);
}

#[test]
fn sums_and_differences() {
    let a = Vec3d::new(1, -2, 3);
    let b = Vec3d::new(10, 20, -30);
    assert_eq!(a.plus(b), Vec3d::new(11, 18, -27));
    assert_eq!(a.minus(b), Vec3d::new(-9, -22, 33));
}

#[test]
fn lerp_moves_the_given_distance() {
    assert_eq!(lerp(Vec3d::zero(), Vec3d::new(20_000, 0, 0), 10_000), Vec3d::new(10_000, 0, 0));
    assert_eq!(
        lerp(Vec3d::new(5, 5, 5), Vec3d::new(5, 5, -100), UNIT),
        Vec3d::new(5, 5, 5 - UNIT)
    );
    assert_eq!(
        lerp(Vec3d::zero(), Vec3d::new(3, 4, 0), 50_000),
        Vec3d::new(30_000, 40_000, 0)
    );
    // past the target as well
    assert_eq!(lerp(Vec3d::zero(), Vec3d::new(-1, 0, 0), 7), Vec3d::new(-7, 0, 0));
}

#[test]
fn lerp_without_direction_steps_along_x() {
    let a = Vec3d::new(1, 2, 3);
    assert_eq!(lerp(a, a, 10), Vec3d::new(11, 2, 3));
}

#[test]
fn lerp_rounds_toward_the_start() {
    // 1 / sqrt(2) of 10 ticks is 7.07...
    assert_eq!(lerp(Vec3d::zero(), Vec3d::new(1, 1, 0), 10), Vec3d::new(7, 7, 0));
    assert_eq!(lerp(Vec3d::zero(), Vec3d::new(-1, -1, 0), 10), Vec3d::new(-7, -7, 0));
}

#[test]
fn plane_intersections() {
    let floor = Plane { position: Vec3d::new(0, 0, -20_000), normal: Vec3d::new(0, 0, 1) };
    let down = Vec3d::new(0, 0, -UNIT);
    assert_eq!(floor.intersect(Vec3d::zero(), down), Some(20_000));
    // parallel
    assert_eq!(floor.intersect(Vec3d::zero(), Vec3d::new(UNIT, 0, 0)), None);
    // behind
    assert_eq!(floor.intersect(Vec3d::zero(), Vec3d::new(0, 0, UNIT)), None);
    // on the plane
    assert_eq!(floor.intersect(Vec3d::new(5, 5, -20_000), down), Some(0));
    assert_eq!(floor.normal(Vec3d::zero()), Vec3d::new(0, 0, -1));
}
