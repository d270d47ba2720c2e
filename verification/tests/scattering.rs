use raytrace::geometry::{Ray, Vec3};
use raytrace::hitable::HitRecord;
use raytrace::material::{
    random_in_unit_sphere, reflect, refract, scatter, schlick, Material,
};
use raytrace::random::rng_from_seed;
use raytrace::SCALE;

fn v(x: i64, y: i64, z: i64) -> Vec3 {
    Vec3::new(x * SCALE, y * SCALE, z * SCALE)
}

#[test]
fn reflection_about_an_axis() {
    // (1,-1,0) bouncing off the floor normal (0,1,0) comes back as (1,1,0)
    assert_eq!(reflect(v(1, -1, 0), v(0, 1, 0)), v(1, 1, 0));
    // a head-on ray reflects straight back
    assert_eq!(reflect(v(0, 0, -3), v(0, 0, 1)), v(0, 0, 3));
}

#[test]
fn refraction_straight_on_does_not_bend() {
    let bent = refract(v(0, 0, -1), v(0, 0, 1), 2863311530).expect("no reflection head-on");
    assert_eq!(bent, v(0, 0, -1));
}

#[test]
fn refraction_reports_total_internal_reflection() {
    // a grazing exit against a dense medium: the discriminant goes negative
    let inward = v(10, 0, 1);
    assert!(refract(inward, v(0, 0, -1), 3 * SCALE / 2).is_none());
}

#[test]
fn schlick_head_on_reflectance() {
    // r0 = ((1 - 1.5)/(1 + 1.5))^2 = 0.04, and the fifth-power term vanishes
    let r = schlick(SCALE, 3 * SCALE / 2);
    assert_eq!(r, 171798691);
    // grazing incidence reflects almost everything
    let g = schlick(0, 3 * SCALE / 2);
    assert!(g > 9 * SCALE / 10);
}

fn floor_hit(material: Material) -> HitRecord {
    HitRecord::new(SCALE, v(0, 0, -1), v(0, 0, 1), material)
}

#[test]
fn lambertian_bounces_near_the_normal() {
    let albedo = Vec3::new(SCALE / 2, SCALE / 4, SCALE / 8);
    let material = Material::Lambertian(albedo);
    let r_in = Ray::new(v(0, 0, 0), v(0, 0, -1));
    let rec = floor_hit(material);
    let mut rng = rng_from_seed(11);
    for _ in 0..50 {
        let (attenuation, scattered) =
            scatter(material, &r_in, &rec, &mut rng).expect("diffuse never absorbs");
        assert_eq!(attenuation, albedo);
        assert_eq!(scattered.origin(), rec.point);
        // the bounce direction is the normal plus a unit-ball sample
        let sample = scattered.direction().sub(rec.normal);
        assert!(sample.dot(&sample) < SCALE);
    }
}

#[test]
fn metal_with_zero_fuzz_reflects_exactly() {
    let albedo = Vec3::new(SCALE, SCALE / 2, SCALE / 4);
    let material = Material::Metal(albedo, 0);
    let incoming = v(1, -1, 0);
    let r_in = Ray::new(v(-1, 1, -1), incoming);
    let rec = floor_hit(Material::Metal(albedo, 0));
    let rec = HitRecord::new(rec.parameter, rec.point, v(0, 1, 0), rec.material);
    let mut rng = rng_from_seed(3);
    let (attenuation, scattered) =
        scatter(material, &r_in, &rec, &mut rng).expect("an upward reflection scatters");
    assert_eq!(attenuation, albedo);
    assert_eq!(scattered.origin(), rec.point);
    assert_eq!(scattered.direction(), reflect(incoming.unit_vector(), v(0, 1, 0)));
}

#[test]
fn metal_absorbs_rays_reflected_into_the_surface() {
    // incoming along the normal's side: the reflection points into the
    // surface and the ray is absorbed
    let material = Material::Metal(Vec3::new(SCALE, SCALE, SCALE), 0);
    let r_in = Ray::new(v(0, 2, 0), v(1, 1, 0));
    let rec = HitRecord::new(SCALE, v(1, 3, 0), v(0, 1, 0), material);
    let mut rng = rng_from_seed(5);
    assert!(scatter(material, &r_in, &rec, &mut rng).is_none());
}

#[test]
fn dielectric_always_reflects_under_total_internal_reflection() {
    // exiting a dense sphere at a grazing angle: whatever is drawn, the
    // scattered ray is the mirror reflection
    let material = Material::Dielectric(3 * SCALE / 2);
    let incoming = v(10, 0, 1);
    let r_in = Ray::new(v(0, 0, -1), incoming);
    let rec = HitRecord::new(SCALE, v(0, 0, 0), v(0, 0, 1), material);
    let expected = reflect(incoming, v(0, 0, 1));
    let mut rng = rng_from_seed(9);
    for _ in 0..50 {
        let (attenuation, scattered) =
            scatter(material, &r_in, &rec, &mut rng).expect("a dielectric never absorbs");
        assert_eq!(attenuation, Vec3::one());
        assert_eq!(scattered.direction(), expected);
    }
}

#[test]
fn dielectric_head_on_reflects_or_passes_through() {
    let material = Material::Dielectric(3 * SCALE / 2);
    let incoming = v(0, 0, -1);
    let r_in = Ray::new(v(0, 0, 1), incoming);
    let rec = HitRecord::new(SCALE, v(0, 0, 0), v(0, 0, 1), material);
    let straight_through = v(0, 0, -1);
    let reflected = reflect(incoming, v(0, 0, 1));
    let mut rng = rng_from_seed(2);
    let mut passed = 0u32;
    for _ in 0..200 {
        let (attenuation, scattered) =
            scatter(material, &r_in, &rec, &mut rng).expect("a dielectric never absorbs");
        assert_eq!(attenuation, Vec3::one());
        let d = scattered.direction();
        assert!(d == straight_through || d == reflected);
        if d == straight_through {
            passed += 1;
        }
    }
    // the Schlick reflectance head-on is 4%, so most draws pass through
    assert!(passed > 150);
}

#[test]
fn attenuation_never_amplifies_energy() {
    // every channel of the attenuation stays within [0, 1] for diffuse and
    // metal surfaces with in-range albedos
    let albedo = Vec3::new(SCALE, 0, SCALE / 3);
    let r_in = Ray::new(v(0, 0, 0), v(0, 0, -1));
    let mut rng = rng_from_seed(13);
    for material in [Material::Lambertian(albedo), Material::Metal(albedo, SCALE / 2)] {
        let rec = floor_hit(material);
        if let Some((attenuation, _)) = scatter(material, &r_in, &rec, &mut rng) {
            for channel in [attenuation.r(), attenuation.g(), attenuation.b()] {
                assert!(0 <= channel && channel <= SCALE);
            }
        }
    }
}

#[test]
fn unit_sphere_samples_stay_inside() {
    let mut rng = rng_from_seed(17);
    for _ in 0..200 {
        let p = random_in_unit_sphere(&mut rng);
        assert!(p.dot(&p) < SCALE);
    }
}
