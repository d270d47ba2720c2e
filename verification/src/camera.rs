//! A camera that views the scene: maps normalized image-plane coordinates
//! to world-space rays, with optional lens-aperture defocus blur.

use vstd::prelude::*;
use rand::rngs::StdRng;

verus! {

use crate::SCALE;
use crate::fixed::{fmul, fx_mul, lemma_tdiv_zero, lemma_fmul_scaled};
use crate::geometry::{
    Vec3, V3, Ray, RayModel, v3_add, v3_sub, v3_scale, cross3, unit3, dot3, raw_sq,
    bounded3, ORIGIN_MAX, DIR_MAX,
    lemma_unit3_bounded, lemma_dot3_bound, lemma_scale3_scaled, lemma_cross3_scaled,
    lemma_cross3_orthogonal,
};
use vstd::math::abs;
use crate::random::next_symmetric;

/// Largest camera-point component accepted (4096 in real units).
pub const CAM_POS_MAX: i64 = 0x1000_0000_0000;

/// Largest focus distance accepted (256 in real units).
pub const FOCUS_MAX: i64 = 0x100_0000_0000;

/// Largest aperture accepted (16 in real units).
pub const APERTURE_MAX: i64 = 0x10_0000_0000;

/// Mathematical model of a camera.
pub ghost struct CameraModel {
    pub origin: V3,
    pub lower_left_corner: V3,
    pub horizontal: V3,
    pub vertical: V3,
    pub u: V3,
    pub v: V3,
    pub lens_radius: int,
}

/// The camera struct: the viewport frame derived at construction, plus the
/// lens basis used for defocus blur.
pub struct Camera {
    pub origin: Vec3,
    pub lower_left_corner: Vec3,
    pub horizontal: Vec3,
    pub vertical: Vec3,
    pub u: Vec3,
    pub v: Vec3,
    pub lens_radius: i64,
}

impl View for Camera {
    type V = CameraModel;

    open spec fn view(&self) -> CameraModel {
        CameraModel {
            origin: self.origin@,
            lower_left_corner: self.lower_left_corner@,
            horizontal: self.horizontal@,
            vertical: self.vertical@,
            u: self.u@,
            v: self.v@,
            lens_radius: self.lens_radius as int,
        }
    }
}

/// The viewport frame the constructor derives. `half_height` is the tangent
/// of half the vertical field of view, supplied directly as a fixed-point
/// scalar.
pub open spec fn camera_model(
    look_from: V3,
    look_at: V3,
    view_up: V3,
    half_height: int,
    aspect: int,
    aperture: int,
    focus_dist: int,
) -> CameraModel {
    let w = unit3(v3_sub(look_from, look_at));
    let u = unit3(cross3(view_up, w));
    let v = cross3(w, u);
    let half_width = fmul(aspect, half_height);
    CameraModel {
        origin: look_from,
        lower_left_corner: v3_sub(
            v3_sub(
                v3_sub(look_from, v3_scale(v3_scale(u, half_width), focus_dist)),
                v3_scale(v3_scale(v, half_height), focus_dist),
            ),
            v3_scale(w, focus_dist),
        ),
        horizontal: v3_scale(v3_scale(v3_scale(u, 2 * SCALE), half_width), focus_dist),
        vertical: v3_scale(v3_scale(v3_scale(v, 2 * SCALE), half_height), focus_dist),
        u,
        v,
        lens_radius: aperture / 2,
    }
}

/// A camera the ray builder can use: the bounds its constructor establishes.
pub open spec fn camera_wf(c: CameraModel) -> bool {
    &&& bounded3(c.origin, 4096 * SCALE)
    &&& bounded3(c.lower_left_corner, 6400 * SCALE)
    &&& bounded3(c.horizontal, 2048 * SCALE)
    &&& bounded3(c.vertical, 2048 * SCALE)
    &&& bounded3(c.u, SCALE as int)
    &&& bounded3(c.v, 2 * SCALE)
    &&& 0 <= c.lens_radius <= 16 * SCALE
}

/// A sample from the disk sampler: strictly inside the unit disk, flat in z.
pub open spec fn in_unit_disk(p: V3) -> bool {
    &&& bounded3(p, SCALE as int)
    &&& p.z == 0
    &&& dot3(p, p) < SCALE
}

/// The ray a camera emits for image coordinates `(u, v)` and a disk sample:
/// the origin shifts by the sample mapped into the lens basis, and the ray
/// aims at the viewport point, sharp at the focus distance.
pub open spec fn camera_ray(c: CameraModel, u: int, v: int, disk: V3) -> RayModel {
    let rd = v3_scale(disk, c.lens_radius);
    let offset = v3_add(v3_scale(c.u, rd.x), v3_scale(c.v, rd.y));
    RayModel {
        origin: v3_add(c.origin, offset),
        direction: v3_sub(
            v3_sub(
                v3_add(v3_add(c.lower_left_corner, v3_scale(c.horizontal, u)), v3_scale(c.vertical, v)),
                c.origin,
            ),
            offset,
        ),
    }
}

/// The derived viewport basis is orthogonal to within three raw units:
/// `v` is the cross product of the unit view axis `w` with the unit
/// horizontal axis `u`, and the scalar triple product vanishes exactly, so
/// only the per-component roundings remain. The `horizontal` and `vertical`
/// spans are fixed-point multiples of `u` and `v`.
pub proof fn lemma_camera_basis_orthogonal(
    look_from: V3,
    look_at: V3,
    view_up: V3,
    half_height: int,
    aspect: int,
    aperture: int,
    focus_dist: int,
)
    requires
        raw_sq(v3_sub(look_from, look_at)) >= 1,
        raw_sq(cross3(view_up, unit3(v3_sub(look_from, look_at)))) >= 1,
    ensures
        ({
            let cm = camera_model(
                look_from,
                look_at,
                view_up,
                half_height,
                aspect,
                aperture,
                focus_dist,
            );
            let w = unit3(v3_sub(look_from, look_at));
            &&& abs(dot3(cm.u, cm.v)) <= 3
            &&& abs(dot3(w, cm.v)) <= 3
        }),
{
    let w = unit3(v3_sub(look_from, look_at));
    let u = unit3(cross3(view_up, w));
    lemma_unit3_bounded(v3_sub(look_from, look_at));
    lemma_unit3_bounded(cross3(view_up, w));
    lemma_cross3_orthogonal(w, u);
}

/// A point uniformly inside the unit disk, by rejection sampling with a
/// deterministic fallback at the retry cap.
pub fn random_in_unit_disc(rng: &mut StdRng) -> (p: Vec3)
    ensures
        in_unit_disk(p@),
{
    let mut tries: u32 = 0;
    while tries < 64
        invariant
            true,
        decreases 64 - tries,
    {
        let p = Vec3::new(next_symmetric(rng), next_symmetric(rng), 0);
        proof {
            lemma_dot3_bound(p@, p@, SCALE as int, SCALE as int);
        }
        if p.dot(&p) < SCALE {
            return p;
        }
        tries += 1;
    }
    proof {
        lemma_tdiv_zero(SCALE as int);
    }
    Vec3::zero()
}

impl Camera {
    pub open spec fn wf(&self) -> bool {
        camera_wf(self@)
    }

    /// Derives the viewport frame from the look-from/look-at points, the up
    /// vector, the tangent of half the vertical field of view, the aspect
    /// ratio, the aperture, and the focus distance.
    pub fn new(
        look_from: Vec3,
        look_at: Vec3,
        view_up: Vec3,
        half_height: i64,
        aspect: i64,
        aperture: i64,
        focus_dist: i64,
    ) -> (c: Self)
        requires
            bounded3(look_from@, CAM_POS_MAX as int),
            bounded3(look_at@, CAM_POS_MAX as int),
            bounded3(view_up@, CAM_POS_MAX as int),
            raw_sq(v3_sub(look_from@, look_at@)) >= SCALE,
            raw_sq(cross3(view_up@, unit3(v3_sub(look_from@, look_at@)))) >= 1,
            0 < half_height <= 2 * SCALE,
            0 < aspect <= 2 * SCALE,
            0 <= aperture <= APERTURE_MAX,
            0 < focus_dist <= FOCUS_MAX,
        ensures
            c@ == camera_model(
                look_from@,
                look_at@,
                view_up@,
                half_height as int,
                aspect as int,
                aperture as int,
                focus_dist as int,
            ),
            c.wf(),
    {
        proof {
            lemma_unit3_bounded(v3_sub(look_from@, look_at@));
        }
        let w = look_from.sub(look_at).unit_vector();
        proof {
            lemma_cross3_scaled(view_up@, 4096, w@, 1);
            lemma_unit3_bounded(cross3(view_up@, w@));
        }
        let u = view_up.cross(&w).unit_vector();
        proof {
            lemma_cross3_scaled(w@, 1, u@, 1);
        }
        let v = w.cross(&u);
        proof {
            lemma_fmul_scaled(aspect as int, 2, half_height as int, 2);
        }
        let half_width = fx_mul(aspect, half_height);
        proof {
            lemma_scale3_scaled(u@, 1, half_width as int, 4);
            lemma_scale3_scaled(v3_scale(u@, half_width as int), 4, focus_dist as int, 256);
            lemma_scale3_scaled(v@, 2, half_height as int, 2);
            lemma_scale3_scaled(v3_scale(v@, half_height as int), 4, focus_dist as int, 256);
            lemma_scale3_scaled(w@, 1, focus_dist as int, 256);
        }
        let lower_left_corner = look_from.sub(u.scale(half_width).scale(focus_dist)).sub(
            v.scale(half_height).scale(focus_dist),
        ).sub(w.scale(focus_dist));
        proof {
            lemma_scale3_scaled(u@, 1, 2 * SCALE, 2);
            lemma_scale3_scaled(v3_scale(u@, 2 * SCALE), 2, half_width as int, 4);
            lemma_scale3_scaled(
                v3_scale(v3_scale(u@, 2 * SCALE), half_width as int),
                8,
                focus_dist as int,
                256,
            );
            lemma_scale3_scaled(v@, 2, 2 * SCALE, 2);
            lemma_scale3_scaled(v3_scale(v@, 2 * SCALE), 4, half_height as int, 2);
            lemma_scale3_scaled(
                v3_scale(v3_scale(v@, 2 * SCALE), half_height as int),
                8,
                focus_dist as int,
                256,
            );
        }
        let horizontal = u.scale(2 * SCALE).scale(half_width).scale(focus_dist);
        let vertical = v.scale(2 * SCALE).scale(half_height).scale(focus_dist);
        let lens_radius = ((aperture as u64) / 2) as i64;
        Camera {
            origin: look_from,
            lower_left_corner,
            horizontal,
            vertical,
            u,
            v,
            lens_radius,
        }
    }

    /// Returns a ray from the (possibly lens-shifted) origin through the
    /// viewport point `(u, v)`; its origin and direction stay within the
    /// intersection query's bounds.
    #[verifier::rlimit(60)]
    pub fn get_ray(&self, u: i64, v: i64, rng: &mut StdRng) -> (r: Ray)
        requires
            self.wf(),
            0 <= u <= SCALE,
            0 <= v <= SCALE,
        ensures
            exists|disk: V3|
                in_unit_disk(disk) && r@ == camera_ray(self@, u as int, v as int, disk),
            bounded3(r@.origin, ORIGIN_MAX as int),
            bounded3(r@.direction, DIR_MAX as int),
    {
        let disk = random_in_unit_disc(rng);
        proof {
            lemma_scale3_scaled(disk@, 1, self@.lens_radius, 16);
        }
        let rd = disk.scale(self.lens_radius);
        proof {
            lemma_scale3_scaled(self@.u, 1, rd@.x, 16);
            lemma_scale3_scaled(self@.v, 2, rd@.y, 16);
        }
        let offset = self.u.scale(rd.x).add(self.v.scale(rd.y));
        proof {
            lemma_scale3_scaled(self@.horizontal, 2048, u as int, 1);
            lemma_scale3_scaled(self@.vertical, 2048, v as int, 1);
        }
        let origin = self.origin.add(offset);
        let direction = self.lower_left_corner.add(self.horizontal.scale(u)).add(
            self.vertical.scale(v),
        ).sub(self.origin).sub(offset);
        let r = Ray::new(origin, direction);
        proof {
            assert(in_unit_disk(disk@) && r@ == camera_ray(self@, u as int, v as int, disk@));
        }
        r
    }
}

} // verus!
