use raytrace::geometry::{ray_in_bounds, Ray, Vec3};
use raytrace::SCALE;

fn v(x: i64, y: i64, z: i64) -> Vec3 {
    Vec3::new(x * SCALE, y * SCALE, z * SCALE)
}

#[test]
fn componentwise_arithmetic() {
    let a = v(1, 2, 3);
    let b = v(4, -5, 6);
    assert_eq!(a.add(b), v(5, -3, 9));
    assert_eq!(a.sub(b), v(-3, 7, -3));
    assert_eq!(b.neg(), v(-4, 5, -6));
    assert_eq!(a.mul(b), v(4, -10, 18));
    assert_eq!(a.scale(2 * SCALE), v(2, 4, 6));
    assert_eq!(v(4, -10, 18).div(2 * SCALE), v(2, -5, 9));
}

#[test]
fn color_accessors_alias_components() {
    let c = Vec3::new(1, 2, 3);
    assert_eq!(c.r(), 1);
    assert_eq!(c.g(), 2);
    assert_eq!(c.b(), 3);
    assert_eq!(Vec3::one(), Vec3::new(SCALE, SCALE, SCALE));
    assert_eq!(Vec3::zero(), Vec3::new(0, 0, 0));
}

#[test]
fn dot_and_cross_products() {
    let a = v(1, 2, 3);
    let b = v(4, -5, 6);
    assert_eq!(a.dot(&b), (4 - 10 + 18) * SCALE);
    // (1,2,3) x (4,-5,6) = (27, 6, -13)
    assert_eq!(a.cross(&b), v(27, 6, -13));
    // anti-commutative
    assert_eq!(b.cross(&a), v(-27, -6, 13));
}

#[test]
fn lengths_of_exact_triples() {
    let a = v(3, 4, 0);
    assert_eq!(a.squared_length(), 25 * SCALE);
    assert_eq!(a.length(), 5 * SCALE);
    assert_eq!(v(0, 0, -2).length(), 2 * SCALE);
}

#[test]
fn unit_vector_of_a_pythagorean_triple() {
    let u = v(3, 4, 0).unit_vector();
    // 3/5 and 4/5, truncated onto the fixed grid
    assert_eq!(u, Vec3::new(2576980377, 3435973836, 0));
    // squared length lands within a hair of one
    let sq = u.dot(&u);
    assert!((sq - SCALE).abs() <= 16);
}

#[test]
fn unit_vector_of_an_axis_is_exact() {
    assert_eq!(v(0, 7, 0).unit_vector(), v(0, 1, 0));
    assert_eq!(v(0, 0, -9).unit_vector(), v(0, 0, -1));
}

#[test]
fn ray_points_along_its_direction() {
    let r = Ray::new(v(1, 0, 0), v(0, 0, -2));
    assert_eq!(r.origin(), v(1, 0, 0));
    assert_eq!(r.direction(), v(0, 0, -2));
    assert_eq!(r.point_at_parameter(3 * SCALE), v(1, 0, -6));
    assert_eq!(r.point_at_parameter(SCALE / 2), v(1, 0, -1));
}

#[test]
fn ray_bounds_reject_degenerate_directions() {
    assert!(ray_in_bounds(&Ray::new(v(0, 0, 0), v(0, 0, -1))));
    // a zero direction is refused
    assert!(!ray_in_bounds(&Ray::new(v(0, 0, 0), Vec3::zero())));
    // an overlong direction is refused
    assert!(!ray_in_bounds(&Ray::new(v(0, 0, 0), v(20000, 0, 0))));
    // an origin too far out is refused
    assert!(!ray_in_bounds(&Ray::new(v(9000, 0, 0), v(0, 0, -1))));
}
