use raytrace::geometry::{Ray, Vec3};
use raytrace::hitable::{Hitable, Scene, Sphere};
use raytrace::material::Material;
use raytrace::trace::{EPSILON, T_FAR};
use raytrace::SCALE;

fn v(x: i64, y: i64, z: i64) -> Vec3 {
    Vec3::new(x * SCALE, y * SCALE, z * SCALE)
}

fn gray() -> Material {
    Material::Lambertian(Vec3::new(SCALE / 2, SCALE / 2, SCALE / 2))
}

#[test]
fn ray_through_center_hits_with_unit_normal() {
    // sphere centered at the origin, ray aimed through its center
    let s = Sphere::new(v(0, 0, 0), 2 * SCALE, gray());
    let r = Ray::new(v(0, 0, 5), v(0, 0, -1));
    let rec = s.hit(&r, EPSILON, T_FAR).expect("the ray passes through the center");
    assert_eq!(rec.parameter, 3 * SCALE);
    assert_eq!(rec.point, v(0, 0, 2));
    // normal parallel to point - center, and exactly unit length
    assert_eq!(rec.normal, v(0, 0, 1));
    assert_eq!(rec.normal.dot(&rec.normal), SCALE);
}

#[test]
fn normals_are_near_unit_on_every_hit() {
    let s = Sphere::new(v(0, 1, -3), 3 * SCALE / 2, gray());
    for k in -5i64..=5 {
        let r = Ray::new(v(0, 0, 0), Vec3::new(k * SCALE / 8, SCALE / 4, -SCALE));
        if let Some(rec) = s.hit(&r, EPSILON, T_FAR) {
            let sq = rec.normal.dot(&rec.normal);
            assert!((sq - SCALE).abs() <= 0x1_0000);
        }
    }
}

#[test]
fn fixed_viewport_center_ray_golden_shade() {
    // a single sphere of radius 0.5 at (0,0,-1), ray through the pixel
    // center of the historical fixed viewport
    let s = Sphere::new(v(0, 0, -1), SCALE / 2, gray());
    let r = Ray::new(v(0, 0, 0), v(0, 0, -1));
    let rec = s.hit(&r, EPSILON, T_FAR).expect("the center ray hits the sphere");
    assert_eq!(rec.parameter, SCALE / 2);
    assert_eq!(rec.point, Vec3::new(0, 0, -(SCALE / 2)));
    assert_eq!(rec.normal, v(0, 0, 1));
    // the shaded-normal formula (normal + 1) * 0.5 gives the golden triplet
    let shaded = rec.normal.add(Vec3::one()).scale(SCALE / 2);
    assert_eq!(shaded, Vec3::new(2147483648, 2147483648, 4294967296));
}

#[test]
fn tangent_rays_are_misses() {
    // the ray grazes the sphere exactly: the discriminant is zero and the
    // strict test calls it a miss
    let s = Sphere::new(v(0, 1, -2), SCALE, gray());
    let r = Ray::new(v(0, 0, 0), v(0, 0, -1));
    assert!(s.hit(&r, EPSILON, T_FAR).is_none());
}

#[test]
fn ray_from_inside_takes_the_far_root() {
    let s = Sphere::new(v(0, 0, 0), SCALE, gray());
    let r = Ray::new(v(0, 0, 0), v(0, 0, -1));
    let rec = s.hit(&r, EPSILON, T_FAR).expect("the far surface is ahead");
    assert_eq!(rec.parameter, SCALE);
    assert_eq!(rec.point, v(0, 0, -1));
    assert_eq!(rec.normal, v(0, 0, -1));
}

#[test]
fn interval_bounds_are_strict() {
    let s = Sphere::new(v(0, 0, 0), 2 * SCALE, gray());
    let r = Ray::new(v(0, 0, 5), v(0, 0, -1));
    // the near root is at exactly 3: both bounds exclude it
    assert!(s.hit(&r, 3 * SCALE, T_FAR).map(|h| h.parameter) == Some(7 * SCALE));
    assert!(s.hit(&r, EPSILON, 3 * SCALE).is_none());
}

#[test]
fn nearest_of_two_overlapping_spheres_wins() {
    let near = Sphere::new(v(0, 0, -2), SCALE / 2, gray());
    let far = Sphere::new(v(0, 0, -4), SCALE, Material::Dielectric(3 * SCALE / 2));
    let r = Ray::new(v(0, 0, 0), v(0, 0, -1));
    let t_near = near.hit(&r, EPSILON, T_FAR).unwrap().parameter;
    let t_far = far.hit(&r, EPSILON, T_FAR).unwrap().parameter;
    assert_eq!(t_near, 3 * SCALE / 2);
    assert_eq!(t_far, 3 * SCALE);
    // the scene reports the smaller parameter in either scan order
    let scene_a = Scene::new(vec![far, near]);
    let scene_b = Scene::new(vec![near, far]);
    let rec_a = scene_a.hit(&r, EPSILON, T_FAR).unwrap();
    let rec_b = scene_b.hit(&r, EPSILON, T_FAR).unwrap();
    assert_eq!(rec_a.parameter, t_near.min(t_far));
    assert_eq!(rec_b.parameter, t_near.min(t_far));
    assert!(matches!(rec_a.material, Material::Lambertian(_)));
    assert!(matches!(rec_b.material, Material::Lambertian(_)));
}

#[test]
fn empty_scene_reports_nothing() {
    let scene = Scene::new(Vec::new());
    let r = Ray::new(v(0, 0, 0), v(0, 0, -1));
    assert!(scene.hit(&r, EPSILON, T_FAR).is_none());
}

#[test]
fn well_formedness_checks() {
    assert!(Sphere::new(v(0, 0, -1), SCALE / 2, gray()).wf_check());
    let s = Sphere { center: v(0, 0, 0), radius: 0, material: gray() };
    assert!(!s.wf_check());
    let scene = Scene::new(vec![Sphere::new(v(0, 0, -1), SCALE / 2, gray()), s]);
    assert!(!scene.wf_check());
}
