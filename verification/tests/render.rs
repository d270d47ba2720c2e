use raytrace::camera::{random_in_unit_disc, Camera};
use raytrace::geometry::{ray_in_bounds, Ray, Vec3};
use raytrace::hitable::{Hitable, Scene, Sphere};
use raytrace::material::Material;
use raytrace::random::rng_from_seed;
use raytrace::trace::{color, sky, EPSILON, SKY_ZENITH_B, SKY_ZENITH_G, SKY_ZENITH_R, T_FAR};
use raytrace::SCALE;

fn v(x: i64, y: i64, z: i64) -> Vec3 {
    Vec3::new(x * SCALE, y * SCALE, z * SCALE)
}

#[test]
fn sky_boundary_colors_are_exact() {
    let scene = Scene::new(Vec::new());
    let mut rng = rng_from_seed(1);
    // straight up: exactly the zenith color
    let up = color(&Ray::new(v(0, 0, 0), v(0, 1, 0)), &scene, 0, &mut rng);
    assert_eq!(up, Vec3::new(SKY_ZENITH_R, SKY_ZENITH_G, SKY_ZENITH_B));
    // straight down: exactly the horizon white
    let down = color(&Ray::new(v(0, 0, 0), v(0, -1, 0)), &scene, 0, &mut rng);
    assert_eq!(down, Vec3::one());
    // the gradient agrees with the sky function on a miss
    let level = Ray::new(v(0, 0, 0), v(1, 0, 0));
    assert_eq!(color(&level, &scene, 0, &mut rng), sky(&level));
}

#[test]
fn sky_halfway_blend_is_exact() {
    // a horizontal unit direction blends the two colors evenly
    let c = sky(&Ray::new(v(0, 0, 0), v(3, 0, 0)));
    let half = SCALE / 2;
    let expected = Vec3::one().scale(SCALE - half).add(
        Vec3::new(SKY_ZENITH_R, SKY_ZENITH_G, SKY_ZENITH_B).scale(half),
    );
    assert_eq!(c, expected);
}

#[test]
fn depth_ceiling_returns_black_between_facing_mirrors() {
    let mirror = Material::Metal(Vec3::new(SCALE, SCALE, SCALE), 0);
    let scene = Scene::new(vec![
        Sphere::new(v(0, 0, -2), SCALE / 2, mirror),
        Sphere::new(v(0, 0, 2), SCALE / 2, mirror),
    ]);
    let r = Ray::new(v(0, 0, 0), v(0, 0, -1));
    let mut rng = rng_from_seed(23);
    // at the ceiling, a hit returns exactly black, whatever lies deeper
    assert_eq!(color(&r, &scene, 50, &mut rng), Vec3::zero());
    assert_eq!(color(&r, &scene, 200, &mut rng), Vec3::zero());
}

#[test]
fn color_channels_stay_within_unit_range() {
    let scene = Scene::new(vec![
        Sphere::new(v(0, 0, -2), SCALE / 2, Material::Lambertian(Vec3::new(SCALE / 2, SCALE / 3, SCALE / 4))),
        Sphere::new(v(0, -101, 0), 100 * SCALE, Material::Metal(Vec3::new(SCALE, SCALE, SCALE), SCALE / 4)),
        Sphere::new(v(1, 0, -2), SCALE / 2, Material::Dielectric(3 * SCALE / 2)),
    ]);
    let mut rng = rng_from_seed(31);
    for k in -8i64..=8 {
        let r = Ray::new(v(0, 0, 0), Vec3::new(k * SCALE / 8, -SCALE / 8, -SCALE));
        let c = color(&r, &scene, 0, &mut rng);
        for channel in [c.r(), c.g(), c.b()] {
            assert!(0 <= channel && channel <= SCALE);
        }
    }
}

#[test]
fn camera_reproduces_the_historical_viewport() {
    // fov 90 degrees (half-height tangent 1), aspect 2, no aperture,
    // focus distance 1: the classic fixed viewport
    let cam = Camera::new(v(0, 0, 0), v(0, 0, -1), v(0, 1, 0), SCALE, 2 * SCALE, 0, SCALE);
    assert_eq!(cam.lower_left_corner, v(-2, -1, -1));
    assert_eq!(cam.horizontal, v(4, 0, 0));
    assert_eq!(cam.vertical, v(0, 2, 0));
    assert_eq!(cam.origin, v(0, 0, 0));
    assert_eq!(cam.lens_radius, 0);
}

#[test]
fn center_pixel_ray_shades_the_golden_triplet() {
    // end to end: the camera's center ray hits the half-radius sphere and
    // the shaded-normal formula reproduces the golden triplet
    let cam = Camera::new(v(0, 0, 0), v(0, 0, -1), v(0, 1, 0), SCALE, 2 * SCALE, 0, SCALE);
    let mut rng = rng_from_seed(41);
    let r = cam.get_ray(SCALE / 2, SCALE / 2, &mut rng);
    assert_eq!(r.origin(), v(0, 0, 0));
    assert_eq!(r.direction(), v(0, 0, -1));
    assert!(ray_in_bounds(&r));
    let sphere = Sphere::new(v(0, 0, -1), SCALE / 2, Material::Lambertian(Vec3::one()));
    let rec = sphere.hit(&r, EPSILON, T_FAR).expect("the center ray hits");
    let shaded = rec.normal.add(Vec3::one()).scale(SCALE / 2);
    assert_eq!(shaded, Vec3::new(2147483648, 2147483648, 4294967296));
}

#[test]
fn aperture_shifts_stay_on_the_lens_disk() {
    let cam = Camera::new(
        v(13, 2, 3),
        v(0, 0, 0),
        v(0, 1, 0),
        757318615,  // tan of 10 degrees
        3 * SCALE / 2,
        SCALE / 10,
        10 * SCALE,
    );
    let mut rng = rng_from_seed(53);
    for _ in 0..20 {
        let r = cam.get_ray(SCALE / 3, 2 * SCALE / 3, &mut rng);
        // the shifted origin stays within the lens radius of the camera
        let shift = r.origin().sub(cam.origin);
        assert!(shift.dot(&shift) <= cam.lens_radius);
        assert!(ray_in_bounds(&r));
    }
}

#[test]
fn disk_samples_stay_inside() {
    let mut rng = rng_from_seed(61);
    for _ in 0..200 {
        let p = random_in_unit_disc(&mut rng);
        assert_eq!(p.b(), 0);
        assert!(p.dot(&p) < SCALE);
    }
}
