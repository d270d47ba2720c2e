//! Scene intersection: the `Hitable` capability, its sphere primitive,
//! and the aggregate that scans a scene for the nearest hit.
//!
//! Each implementer fixes a spec-level model (`hit_model`) of what its
//! intersection query returns, and the executable `hit` is proved to match
//! it exactly.

use vstd::prelude::*;
use vstd::math::abs;

verus! {

use crate::SCALE;
use crate::fixed::{
    tdiv, fmul, fsqrt, sqrt_floor, fx_mul, div_trunc, isqrt, MAX_RADICAND,
    lemma_tdiv_bound, lemma_tdiv_ordered, lemma_tdiv_mult_exact, lemma_tdiv_zero,
    lemma_fmul_bound, lemma_sqrt_floor, lemma_sqrt_floor_unique,
};
use crate::geometry::{
    Vec3, V3, Ray, RayModel, v3_sub, v3_div, v3_zero, cross3, dot3, raw_sq, point_at3, v3_scale,
    bounded3, fits3, in_i64, ray_wf, DIR_MAX,
    lemma_dot3_bound, lemma_abs_mul_le, lemma_raw_sq_nonneg,
};
use crate::material::Material;

/// Largest sphere-center component and radius the scene accepts (4096 real).
pub const COORD_MAX: i64 = 0x1000_0000_0000;

/// Largest `t_max` an intersection query accepts (2048 real).
pub const T_QUERY_MAX: i64 = 0x800_0000_0000;

/// Bound on the components of any computed hit point.
pub const HIT_POINT_MAX: i64 = 0x400_0000_0000_0000;

/// Tolerance on a hit normal's squared length: `|n . n - 1| <= 2^-16`.
pub const NORM_EPS: i64 = 0x1_0000;

/// Mathematical model of a hit record.
pub ghost struct HitModel {
    pub parameter: int,
    pub point: V3,
    pub normal: V3,
    pub material: Material,
}

/// Mathematical model of a sphere.
pub ghost struct SphereModel {
    pub center: V3,
    pub radius: int,
    pub material: Material,
}

/// The result of a successful intersection query.
#[derive(Clone, Copy, Debug)]
pub struct HitRecord {
    pub parameter: i64,
    pub point: Vec3,
    pub normal: Vec3,
    pub material: Material,
}

impl View for HitRecord {
    type V = HitModel;

    open spec fn view(&self) -> HitModel {
        HitModel {
            parameter: self.parameter as int,
            point: self.point@,
            normal: self.normal@,
            material: self.material,
        }
    }
}

impl HitRecord {
    pub fn new(parameter: i64, point: Vec3, normal: Vec3, material: Material) -> (r: HitRecord)
        ensures
            r@ == (HitModel {
                parameter: parameter as int,
                point: point@,
                normal: normal@,
                material,
            }),
    {
        HitRecord { parameter, point, normal, material }
    }
}

/// A sphere: center, positive radius, and the material it carries.
#[derive(Clone, Copy, Debug)]
pub struct Sphere {
    pub center: Vec3,
    pub radius: i64,
    pub material: Material,
}

impl View for Sphere {
    type V = SphereModel;

    open spec fn view(&self) -> SphereModel {
        SphereModel { center: self.center@, radius: self.radius as int, material: self.material }
    }
}

/// A sphere the intersection query can handle: bounded center, a positive
/// bounded radius, and a well-formed material.
pub open spec fn sphere_wf(s: SphereModel) -> bool {
    &&& bounded3(s.center, COORD_MAX as int)
    &&& 0 < s.radius <= COORD_MAX
    &&& s.material.wf()
}

impl Sphere {
    pub open spec fn wf(self) -> bool {
        sphere_wf(self@)
    }

    pub fn new(center: Vec3, radius: i64, material: Material) -> (s: Self)
        requires
            sphere_wf(SphereModel { center: center@, radius: radius as int, material }),
        ensures
            s@ == (SphereModel { center: center@, radius: radius as int, material }),
            s.wf(),
    {
        Sphere { center, radius, material }
    }

    /// Decides `wf` at run time, for callers outside the proved world.
    pub fn wf_check(&self) -> (b: bool)
        ensures
            b == self.wf(),
    {
        -COORD_MAX <= self.center.x && self.center.x <= COORD_MAX
            && -COORD_MAX <= self.center.y && self.center.y <= COORD_MAX
            && -COORD_MAX <= self.center.z && self.center.z <= COORD_MAX
            && 0 < self.radius && self.radius <= COORD_MAX
            && self.material.wf_check()
    }
}

/// The quadratic's leading coefficient: `direction . direction`.
pub open spec fn sph_a(r: RayModel) -> int {
    dot3(r.direction, r.direction)
}

/// The vector from the sphere's center to the ray's origin.
pub open spec fn sph_oc(s: SphereModel, r: RayModel) -> V3 {
    v3_sub(r.origin, s.center)
}

/// The quadratic's half middle coefficient: `oc . direction`.
pub open spec fn sph_b(s: SphereModel, r: RayModel) -> int {
    dot3(sph_oc(s, r), r.direction)
}

/// The quadratic's constant coefficient: `oc . oc - radius^2`.
pub open spec fn sph_c(s: SphereModel, r: RayModel) -> int {
    dot3(sph_oc(s, r), sph_oc(s, r)) - fmul(s.radius, s.radius)
}

/// The discriminant `b^2 - a c`, rounded once.
pub open spec fn sph_disc(s: SphereModel, r: RayModel) -> int {
    tdiv(sph_b(s, r) * sph_b(s, r) - sph_a(r) * sph_c(s, r), SCALE as int)
}

/// The fixed-point square root of the discriminant.
pub open spec fn sph_sqrt_disc(s: SphereModel, r: RayModel) -> int {
    fsqrt(sph_disc(s, r))
}

/// The smaller root `(-b - sqrt(disc)) / a`.
pub open spec fn sph_root1(s: SphereModel, r: RayModel) -> int {
    tdiv((-sph_b(s, r) - sph_sqrt_disc(s, r)) * SCALE, sph_a(r))
}

/// The larger root `(-b + sqrt(disc)) / a`.
pub open spec fn sph_root2(s: SphereModel, r: RayModel) -> int {
    tdiv((-sph_b(s, r) + sph_sqrt_disc(s, r)) * SCALE, sph_a(r))
}

/// The outward surface normal at parameter `t`: `(point - center) / radius`.
pub open spec fn hit_normal(s: SphereModel, r: RayModel, t: int) -> V3 {
    v3_div(v3_sub(point_at3(r, t), s.center), s.radius)
}

/// A normal the record builder accepts: bounded components and a squared
/// length within `NORM_EPS` of one.
pub open spec fn near_unit(n: V3) -> bool {
    &&& bounded3(n, 2 * SCALE)
    &&& abs(dot3(n, n) - SCALE) <= NORM_EPS
}

/// The record a sphere reports for an accepted root `t`, or nothing when
/// the computed normal fails the near-unit check.
pub open spec fn sph_hit_at(s: SphereModel, r: RayModel, t: int) -> Option<HitModel> {
    let n = hit_normal(s, r, t);
    if near_unit(n) {
        Some(HitModel { parameter: t, point: point_at3(r, t), normal: n, material: s.material })
    } else {
        None
    }
}

/// What a sphere's intersection query returns: the smaller root if it lies
/// strictly within `(t_min, t_max)`, otherwise the larger root under the
/// same bound, otherwise nothing.
pub open spec fn sphere_hit_model(s: SphereModel, r: RayModel, t_min: int, t_max: int) -> Option<
    HitModel,
> {
    if sph_disc(s, r) > 0 {
        if t_min < sph_root1(s, r) < t_max {
            sph_hit_at(s, r, sph_root1(s, r))
        } else if t_min < sph_root2(s, r) < t_max {
            sph_hit_at(s, r, sph_root2(s, r))
        } else {
            None
        }
    } else {
        None
    }
}

/// The executable result agrees with the model, field for field.
pub open spec fn opt_hit_matches(res: Option<HitRecord>, m: Option<HitModel>) -> bool {
    match (res, m) {
        (Option::None, Option::None) => true,
        (Option::Some(rec), Option::Some(h)) => rec@ == h,
        _ => false,
    }
}

/// The capability of reporting the nearest intersection within an interval.
pub trait Hitable {
    /// When the implementer is fit to be queried.
    spec fn hit_wf(&self) -> bool;

    /// The model of what the query returns.
    spec fn hit_model(&self, r: RayModel, t_min: int, t_max: int) -> Option<HitModel>;

    /// Reports an intersection strictly within `(t_min, t_max)`, or nothing.
    fn hit(&self, r: &Ray, t_min: i64, t_max: i64) -> (res: Option<HitRecord>)
        requires
            self.hit_wf(),
            ray_wf(r@),
            0 <= t_min,
            t_max <= T_QUERY_MAX,
        ensures
            opt_hit_matches(res, self.hit_model(r@, t_min as int, t_max as int));
}

impl Hitable for Sphere {
    open spec fn hit_wf(&self) -> bool {
        self.wf()
    }

    open spec fn hit_model(&self, r: RayModel, t_min: int, t_max: int) -> Option<HitModel> {
        sphere_hit_model(self@, r, t_min, t_max)
    }

    fn hit(&self, r: &Ray, t_min: i64, t_max: i64) -> (res: Option<HitRecord>) {
        proof {
            lemma_sphere_query_bounds(self@, r@);
        }
        let oc = r.origin().sub(self.center);
        let a = r.direction().dot(&r.direction());
        let b = oc.dot(&r.direction());
        let c = oc.dot(&oc) - fx_mul(self.radius, self.radius);
        let disc = div_trunc(
            (b as i128) * (b as i128) - (a as i128) * (c as i128),
            SCALE as i128,
        );
        if disc > 0 {
            proof {
                lemma_sqrt_in_window(disc as int);
            }
            let sqrt_disc = isqrt((disc as u128) * (SCALE as u128)) as i128;
            proof {
                lemma_abs_mul_le(
                    -(b as int) - sqrt_disc,
                    0xa400_0000_0000_0000,
                    SCALE as int,
                    SCALE as int,
                );
                lemma_abs_mul_le(
                    -(b as int) + sqrt_disc,
                    0xa400_0000_0000_0000,
                    SCALE as int,
                    SCALE as int,
                );
            }
            let root = div_trunc((-(b as i128) - sqrt_disc) * (SCALE as i128), a as i128);
            if (t_min as i128) < root && root < (t_max as i128) {
                return self.hit_at(r, root as i64);
            }
            let root = div_trunc((-(b as i128) + sqrt_disc) * (SCALE as i128), a as i128);
            if (t_min as i128) < root && root < (t_max as i128) {
                return self.hit_at(r, root as i64);
            }
            None
        } else {
            None
        }
    }
}

impl Sphere {
    /// Builds the record for an accepted root: the hit point, the outward
    /// normal, and the near-unit check that `sph_hit_at` specifies.
    fn hit_at(&self, r: &Ray, t: i64) -> (res: Option<HitRecord>)
        requires
            self.wf(),
            ray_wf(r@),
            0 <= t <= T_QUERY_MAX,
        ensures
            opt_hit_matches(res, sph_hit_at(self@, r@, t as int)),
    {
        proof {
            lemma_point_at_bounds(r@, t as int);
        }
        let point = r.point_at_parameter(t);
        proof {
            lemma_abs_mul_le(
                point@.x - self@.center.x,
                0x500_0000_0000_0000,
                SCALE as int,
                SCALE as int,
            );
            lemma_abs_mul_le(
                point@.y - self@.center.y,
                0x500_0000_0000_0000,
                SCALE as int,
                SCALE as int,
            );
            lemma_abs_mul_le(
                point@.z - self@.center.z,
                0x500_0000_0000_0000,
                SCALE as int,
                SCALE as int,
            );
        }
        let nx = div_trunc(
            ((point.x - self.center.x) as i128) * (SCALE as i128),
            self.radius as i128,
        );
        let ny = div_trunc(
            ((point.y - self.center.y) as i128) * (SCALE as i128),
            self.radius as i128,
        );
        let nz = div_trunc(
            ((point.z - self.center.z) as i128) * (SCALE as i128),
            self.radius as i128,
        );
        let bound = (2 * SCALE) as i128;
        if nx < -bound || nx > bound || ny < -bound || ny > bound || nz < -bound || nz > bound {
            return None;
        }
        let normal = Vec3::new(nx as i64, ny as i64, nz as i64);
        proof {
            lemma_dot3_bound(normal@, normal@, 2 * SCALE as int, 2 * SCALE as int);
        }
        let nn = normal.dot(&normal);
        let gap = nn - SCALE;
        if -NORM_EPS <= gap && gap <= NORM_EPS {
            Some(HitRecord::new(t, point, normal, self.material))
        } else {
            None
        }
    }
}

/// For a well-formed sphere and query ray, every intermediate value of the
/// quadratic fits the machine integers it is computed in.
pub proof fn lemma_sphere_query_bounds(s: SphereModel, r: RayModel)
    requires
        sphere_wf(s),
        ray_wf(r),
    ensures
        bounded3(sph_oc(s, r), 0x3000_0000_0000),
        fits3(sph_oc(s, r)),
        1 <= sph_a(r) <= 0x3000_0000_0000_0000,
        abs(sph_b(s, r)) <= 0x2400_0000_0000_0000,
        0 <= fmul(s.radius, s.radius) <= 0x100_0000_0000_0000,
        abs(dot3(sph_oc(s, r), sph_oc(s, r))) <= 0x1b00_0000_0000_0000,
        abs(sph_c(s, r)) <= 0x1c00_0000_0000_0000,
        abs(sph_b(s, r) * sph_b(s, r)) <= 0x1000_0000_0000_0000_0000_0000_0000_0000,
        abs(sph_a(r) * sph_c(s, r)) <= 0x1000_0000_0000_0000_0000_0000_0000_0000,
        abs(sph_b(s, r) * sph_b(s, r) - sph_a(r) * sph_c(s, r))
            <= 0x2000_0000_0000_0000_0000_0000_0000_0000,
        abs(sph_disc(s, r)) <= 0x2000_0000_0000_0000_0000_0000,
        in_i64(sph_a(r)),
        in_i64(sph_b(s, r)),
        in_i64(sph_c(s, r)),
        in_i64(dot3(sph_oc(s, r), sph_oc(s, r))),
        in_i64(fmul(s.radius, s.radius)),
{
    let oc = sph_oc(s, r);
    assert(bounded3(oc, 0x3000_0000_0000));
    lemma_dot3_bound(r.direction, r.direction, DIR_MAX as int, DIR_MAX as int);
    lemma_dot3_bound(oc, r.direction, 0x3000_0000_0000, DIR_MAX as int);
    lemma_dot3_bound(oc, oc, 0x3000_0000_0000, 0x3000_0000_0000);
    lemma_fmul_bound(s.radius, COORD_MAX as int, s.radius, COORD_MAX as int);
    assert(s.radius * s.radius >= 0) by (nonlinear_arith);
    vstd::arithmetic::div_mod::lemma_div_pos_is_pos(s.radius * s.radius, SCALE as int);
    // the direction is long enough that the leading coefficient is positive
    lemma_tdiv_ordered(SCALE as int, raw_sq(r.direction), SCALE as int);
    lemma_tdiv_mult_exact(1, SCALE as int);
    lemma_raw_sq_nonneg(r.direction);
    // the discriminant's numerator
    lemma_abs_mul_le(sph_b(s, r), 0x2400_0000_0000_0000, sph_b(s, r), 0x2400_0000_0000_0000);
    lemma_abs_mul_le(sph_a(r), 0x3000_0000_0000_0000, sph_c(s, r), 0x1c00_0000_0000_0000);
    assert(0x2400_0000_0000_0000 * 0x2400_0000_0000_0000
        <= 0x1000_0000_0000_0000_0000_0000_0000_0000int) by (nonlinear_arith);
    assert(0x3000_0000_0000_0000 * 0x1c00_0000_0000_0000
        <= 0x1000_0000_0000_0000_0000_0000_0000_0000int) by (nonlinear_arith);
    lemma_tdiv_bound(
        sph_b(s, r) * sph_b(s, r) - sph_a(r) * sph_c(s, r),
        SCALE as int,
        0x2000_0000_0000_0000_0000_0000_0000_0000,
    );
}

/// A positive discriminant within the query bounds has a square root that
/// the bisection accepts and that fits beside `b` in an `i128` product.
proof fn lemma_sqrt_in_window(disc: int)
    requires
        0 < disc <= 0x2000_0000_0000_0000_0000_0000,
    ensures
        disc * SCALE < MAX_RADICAND,
        0 <= fsqrt(disc) <= 0x8000_0000_0000_0000,
        fsqrt(disc) * fsqrt(disc) <= disc * SCALE,
{
    assert(disc * SCALE < MAX_RADICAND) by (nonlinear_arith)
        requires 0 < disc <= 0x2000_0000_0000_0000_0000_0000 && SCALE == 0x1_0000_0000;
    lemma_sqrt_floor((disc * SCALE) as nat);
    let sd = sqrt_floor((disc * SCALE) as nat);
    if sd > 0x8000_0000_0000_0000 {
        assert(sd * sd > 0x8000_0000_0000_0000 * 0x8000_0000_0000_0000) by (nonlinear_arith)
            requires sd > 0x8000_0000_0000_0000nat;
    }
}

/// A ray within the query bounds reaches only bounded points over `[0, T_QUERY_MAX]`.
pub proof fn lemma_point_at_bounds(r: RayModel, t: int)
    requires
        ray_wf(r),
        0 <= t <= T_QUERY_MAX,
    ensures
        fits3(v3_scale(r.direction, t)),
        bounded3(v3_scale(r.direction, t), 0x200_0000_0000_0000),
        fits3(point_at3(r, t)),
        bounded3(point_at3(r, t), HIT_POINT_MAX as int),
{
    lemma_fmul_bound(r.direction.x, DIR_MAX as int, t, T_QUERY_MAX as int);
    lemma_fmul_bound(r.direction.y, DIR_MAX as int, t, T_QUERY_MAX as int);
    lemma_fmul_bound(r.direction.z, DIR_MAX as int, t, T_QUERY_MAX as int);
}

/// An ordered collection of spheres, scanned in order for the nearest hit.
pub struct Scene {
    pub spheres: Vec<Sphere>,
}

impl View for Scene {
    type V = Seq<SphereModel>;

    open spec fn view(&self) -> Seq<SphereModel> {
        self.spheres@.map_values(|s: Sphere| s@)
    }
}

/// What the scan reports after the first `n` spheres: the upper bound
/// narrows to each hit found, so a later record is always nearer.
pub open spec fn scene_hit_upto(
    spheres: Seq<SphereModel>,
    n: nat,
    r: RayModel,
    t_min: int,
    t_max: int,
) -> Option<HitModel>
    decreases n,
{
    if n == 0 {
        None
    } else {
        let prev = scene_hit_upto(spheres, (n - 1) as nat, r, t_min, t_max);
        let closest = match prev {
            Option::Some(h) => h.parameter,
            Option::None => t_max,
        };
        match sphere_hit_model(spheres[n - 1], r, t_min, closest) {
            Option::Some(h) => Some(h),
            Option::None => prev,
        }
    }
}

/// What a whole scene's intersection query returns.
pub open spec fn scene_hit_model(
    spheres: Seq<SphereModel>,
    r: RayModel,
    t_min: int,
    t_max: int,
) -> Option<HitModel> {
    scene_hit_upto(spheres, spheres.len(), r, t_min, t_max)
}

pub open spec fn scene_wf(spheres: Seq<SphereModel>) -> bool {
    forall|i: int| 0 <= i < spheres.len() ==> sphere_wf(#[trigger] spheres[i])
}

impl Scene {
    pub open spec fn wf(&self) -> bool {
        scene_wf(self@)
    }

    pub fn new(spheres: Vec<Sphere>) -> (s: Scene)
        ensures
            s@ == spheres@.map_values(|sp: Sphere| sp@),
    {
        Scene { spheres }
    }

    /// Decides `wf` at run time, for callers outside the proved world.
    pub fn wf_check(&self) -> (b: bool)
        ensures
            b == self.wf(),
    {
        let mut i: usize = 0;
        while i < self.spheres.len()
            invariant
                0 <= i <= self.spheres.len(),
                forall|j: int| 0 <= j < i ==> sphere_wf(#[trigger] self@[j]),
            decreases self.spheres.len() - i,
        {
            if !self.spheres[i].wf_check() {
                assert(!sphere_wf(self@[i as int]));
                return false;
            }
            i += 1;
        }
        true
    }
}

impl Hitable for Scene {
    open spec fn hit_wf(&self) -> bool {
        self.wf()
    }

    open spec fn hit_model(&self, r: RayModel, t_min: int, t_max: int) -> Option<HitModel> {
        scene_hit_model(self@, r, t_min, t_max)
    }

    fn hit(&self, r: &Ray, t_min: i64, t_max: i64) -> (res: Option<HitRecord>) {
        let mut closest_so_far = t_max;
        let mut hit: Option<HitRecord> = None;
        let mut i: usize = 0;
        while i < self.spheres.len()
            invariant
                0 <= i <= self.spheres.len(),
                self.wf(),
                ray_wf(r@),
                0 <= t_min,
                t_max <= T_QUERY_MAX,
                closest_so_far <= t_max,
                opt_hit_matches(hit, scene_hit_upto(self@, i as nat, r@, t_min as int, t_max as int)),
                closest_so_far as int == match scene_hit_upto(
                    self@,
                    i as nat,
                    r@,
                    t_min as int,
                    t_max as int,
                ) {
                    Option::Some(h) => h.parameter,
                    Option::None => t_max as int,
                },
            decreases self.spheres.len() - i,
        {
            assert(sphere_wf(self@[i as int]));
            if let Some(t_rec) = self.spheres[i].hit(r, t_min, closest_so_far) {
                closest_so_far = t_rec.parameter;
                hit = Some(t_rec);
            }
            i += 1;
        }
        hit
    }
}

/// Every hit a sphere reports carries a near-unit normal — its squared
/// length is within `NORM_EPS` of one — a bounded hit point, the sphere's
/// own material, and a parameter strictly inside the query interval.
pub proof fn lemma_sphere_hit_facts(s: SphereModel, r: RayModel, t_min: int, t_max: int)
    requires
        ray_wf(r),
        0 <= t_min,
        t_max <= T_QUERY_MAX,
    ensures
        match sphere_hit_model(s, r, t_min, t_max) {
            Option::Some(h) => {
                &&& near_unit(h.normal)
                &&& abs(dot3(h.normal, h.normal) - SCALE) <= NORM_EPS
                &&& bounded3(h.point, HIT_POINT_MAX as int)
                &&& h.material == s.material
                &&& t_min < h.parameter < t_max
            },
            Option::None => true,
        },
{
    if sphere_hit_model(s, r, t_min, t_max) is Some {
        let h = sphere_hit_model(s, r, t_min, t_max)->Some_0;
        lemma_point_at_bounds(r, h.parameter);
    }
}

/// The facts of `lemma_sphere_hit_facts`, carried through the scan of the
/// first `n` spheres of a scene.
pub proof fn lemma_scene_hit_facts(
    spheres: Seq<SphereModel>,
    n: nat,
    r: RayModel,
    t_min: int,
    t_max: int,
)
    requires
        scene_wf(spheres),
        n <= spheres.len(),
        ray_wf(r),
        0 <= t_min,
        t_max <= T_QUERY_MAX,
    ensures
        match scene_hit_upto(spheres, n, r, t_min, t_max) {
            Option::Some(h) => {
                &&& near_unit(h.normal)
                &&& abs(dot3(h.normal, h.normal) - SCALE) <= NORM_EPS
                &&& bounded3(h.point, HIT_POINT_MAX as int)
                &&& h.material.wf()
                &&& t_min < h.parameter < t_max
            },
            Option::None => true,
        },
    decreases n,
{
    if n > 0 {
        lemma_scene_hit_facts(spheres, (n - 1) as nat, r, t_min, t_max);
        let prev = scene_hit_upto(spheres, (n - 1) as nat, r, t_min, t_max);
        let closest = match prev {
            Option::Some(h) => h.parameter,
            Option::None => t_max,
        };
        lemma_sphere_hit_facts(spheres[n - 1], r, t_min, closest);
    }
}

/// The smaller root never exceeds the larger one.
proof fn lemma_roots_ordered(s: SphereModel, r: RayModel)
    requires
        sph_a(r) >= 1,
        sph_disc(s, r) >= 0,
    ensures
        sph_root1(s, r) <= sph_root2(s, r),
{
    let b = sph_b(s, r);
    let sd = sph_sqrt_disc(s, r);
    assert(sd >= 0);
    assert((-b - sd) * SCALE <= (-b + sd) * SCALE) by (nonlinear_arith)
        requires sd >= 0 && SCALE > 0;
    lemma_tdiv_ordered((-b - sd) * SCALE, (-b + sd) * SCALE, sph_a(r));
}

/// Narrowing the upper bound of a sphere query: against a tighter bound
/// `t1 <= t2`, the query returns the wide result exactly when that result's
/// parameter still lies below `t1`, and nothing otherwise.
pub proof fn lemma_sphere_hit_narrow(s: SphereModel, r: RayModel, t_min: int, t1: int, t2: int)
    requires
        sph_a(r) >= 1,
        t1 <= t2,
    ensures
        sphere_hit_model(s, r, t_min, t1) == (match sphere_hit_model(s, r, t_min, t2) {
            Option::Some(h) => if h.parameter < t1 {
                Option::Some(h)
            } else {
                Option::None
            },
            Option::None => Option::None::<HitModel>,
        }),
{
    if sph_disc(s, r) > 0 {
        lemma_roots_ordered(s, r);
    }
}

/// Aggregate nearest hit: when two overlapping spheres are both hit by the
/// ray on the full interval, the scene of the two reports the record whose
/// parameter is the smaller, whatever the scan order did in between.
pub proof fn lemma_scene_nearest_of_two(
    s1: SphereModel,
    s2: SphereModel,
    r: RayModel,
    t_min: int,
    t_max: int,
    h1: HitModel,
    h2: HitModel,
)
    requires
        sph_a(r) >= 1,
        sphere_hit_model(s1, r, t_min, t_max) == Option::Some(h1),
        sphere_hit_model(s2, r, t_min, t_max) == Option::Some(h2),
    ensures
        scene_hit_model(seq![s1, s2], r, t_min, t_max) == if h2.parameter < h1.parameter {
            Option::Some(h2)
        } else {
            Option::Some(h1)
        },
{
    let spheres = seq![s1, s2];
    assert(spheres.len() == 2);
    assert(spheres[0] == s1 && spheres[1] == s2);
    assert(scene_hit_upto(spheres, 0, r, t_min, t_max) is None);
    assert(scene_hit_upto(spheres, 1, r, t_min, t_max) == Option::Some(h1));
    assert(t_min < h1.parameter < t_max);
    lemma_sphere_hit_narrow(s2, r, t_min, h1.parameter, t_max);
    assert(scene_hit_upto(spheres, 2, r, t_min, t_max) == (if h2.parameter < h1.parameter {
        Option::Some(h2)
    } else {
        Option::Some(h1)
    }));
}

/// Exactly when a sphere's query reports nothing: the discriminant is not
/// positive; or neither root lies strictly within `(t_min, t_max)` — ties
/// with either bound count as misses, a deliberate bias; or the accepted
/// root's computed normal failed the near-unit acceptance check, the one
/// extra miss this fixed-point model adds, reachable only for degenerate
/// geometry such as a radius of a few raw units.
pub proof fn lemma_sphere_miss_characterized(s: SphereModel, r: RayModel, t_min: int, t_max: int)
    ensures
        (sphere_hit_model(s, r, t_min, t_max) is None) <==> {
            ||| sph_disc(s, r) <= 0
            ||| {
                &&& !(t_min < sph_root1(s, r) < t_max)
                &&& !(t_min < sph_root2(s, r) < t_max)
            }
            ||| (t_min < sph_root1(s, r) < t_max) && !near_unit(
                hit_normal(s, r, sph_root1(s, r)),
            )
            ||| {
                &&& !(t_min < sph_root1(s, r) < t_max)
                &&& t_min < sph_root2(s, r) < t_max
                &&& !near_unit(hit_normal(s, r, sph_root2(s, r)))
            }
        },
{
}

/// Whether `t` comes no later than the hit `m` reports, if any.
pub open spec fn nearest_le(t: int, m: Option<HitModel>) -> bool {
    match m {
        Option::Some(g) => t <= g.parameter,
        Option::None => true,
    }
}

/// A reported parameter lies strictly inside the query interval.
proof fn lemma_sphere_hit_param_range(s: SphereModel, r: RayModel, t_min: int, t_max: int)
    ensures
        match sphere_hit_model(s, r, t_min, t_max) {
            Option::Some(h) => t_min < h.parameter < t_max,
            Option::None => true,
        },
{
}

/// The scan over the first `n` spheres reports a full-interval hit of one
/// of them that no full-interval hit of any of them precedes; when it
/// reports nothing, none of them has one.
proof fn lemma_scene_hit_upto_nearest(
    spheres: Seq<SphereModel>,
    n: nat,
    r: RayModel,
    t_min: int,
    t_max: int,
)
    requires
        sph_a(r) >= 1,
        n <= spheres.len(),
    ensures
        match scene_hit_upto(spheres, n, r, t_min, t_max) {
            Option::Some(h) => {
                &&& t_min < h.parameter < t_max
                &&& exists|i: int|
                    0 <= i < n && sphere_hit_model(#[trigger] spheres[i], r, t_min, t_max)
                        == Option::Some(h)
                &&& forall|j: int|
                    0 <= j < n ==> nearest_le(
                        h.parameter,
                        sphere_hit_model(#[trigger] spheres[j], r, t_min, t_max),
                    )
            },
            Option::None => forall|j: int|
                0 <= j < n ==> sphere_hit_model(#[trigger] spheres[j], r, t_min, t_max) is None,
        },
    decreases n,
{
    if n > 0 {
        let m = (n - 1) as nat;
        lemma_scene_hit_upto_nearest(spheres, m, r, t_min, t_max);
        let prev = scene_hit_upto(spheres, m, r, t_min, t_max);
        let last = spheres[n - 1];
        lemma_sphere_hit_param_range(last, r, t_min, t_max);
        match prev {
            Option::None => {
                // the full interval is scanned for the last sphere
                match sphere_hit_model(last, r, t_min, t_max) {
                    Option::Some(g) => {
                        assert(scene_hit_upto(spheres, n, r, t_min, t_max) == Option::Some(g));
                        assert(sphere_hit_model(spheres[n - 1], r, t_min, t_max)
                            == Option::Some(g));
                    },
                    Option::None => {
                        assert(scene_hit_upto(spheres, n, r, t_min, t_max) is None);
                    },
                }
            },
            Option::Some(h) => {
                lemma_sphere_hit_narrow(last, r, t_min, h.parameter, t_max);
                match sphere_hit_model(last, r, t_min, h.parameter) {
                    Option::Some(g) => {
                        assert(scene_hit_upto(spheres, n, r, t_min, t_max) == Option::Some(g));
                        assert(sphere_hit_model(spheres[n - 1], r, t_min, t_max)
                            == Option::Some(g) && g.parameter < h.parameter);
                        assert(forall|j: int|
                            0 <= j < n ==> nearest_le(
                                g.parameter,
                                sphere_hit_model(#[trigger] spheres[j], r, t_min, t_max),
                            ));
                    },
                    Option::None => {
                        assert(scene_hit_upto(spheres, n, r, t_min, t_max) == Option::Some(h));
                        let i0 = choose|i: int|
                            0 <= i < m && sphere_hit_model(#[trigger] spheres[i], r, t_min, t_max)
                                == Option::Some(h);
                        assert(0 <= i0 < n && sphere_hit_model(spheres[i0], r, t_min, t_max)
                            == Option::Some(h));
                        assert(nearest_le(
                            h.parameter,
                            sphere_hit_model(spheres[n - 1], r, t_min, t_max),
                        ));
                    },
                }
            },
        }
    }
}

/// Aggregate nearest hit, in general: what a scene's intersection query
/// reports is a full-interval hit of one of its spheres, and no sphere's
/// full-interval hit comes nearer — so the scan's result does not depend on
/// the order of the spheres beyond the choice among ties. When the scene
/// reports nothing, no sphere hits at all.
pub proof fn lemma_scene_hit_nearest(
    spheres: Seq<SphereModel>,
    r: RayModel,
    t_min: int,
    t_max: int,
)
    requires
        sph_a(r) >= 1,
    ensures
        match scene_hit_model(spheres, r, t_min, t_max) {
            Option::Some(h) => {
                &&& t_min < h.parameter < t_max
                &&& exists|i: int|
                    0 <= i < spheres.len() && sphere_hit_model(#[trigger] spheres[i], r, t_min, t_max)
                        == Option::Some(h)
                &&& forall|j: int|
                    0 <= j < spheres.len() ==> nearest_le(
                        h.parameter,
                        sphere_hit_model(#[trigger] spheres[j], r, t_min, t_max),
                    )
            },
            Option::None => forall|j: int|
                0 <= j < spheres.len() ==> sphere_hit_model(#[trigger] spheres[j], r, t_min, t_max)
                    is None,
        },
{
    lemma_scene_hit_upto_nearest(spheres, spheres.len(), r, t_min, t_max);
}

/// A ray through the center of an origin-centered sphere reports a hit whose
/// normal is exactly unit length and exactly parallel to `point - center`:
/// from `(0, 0, h)` aiming straight down the axis at a sphere of radius
/// `rho`, the hit stands at parameter `h - rho`, on the surface, with normal
/// `(0, 0, 1)` — every coordinate in whole fixed-point units.
pub proof fn lemma_ray_through_center_hits(
    rho: int,
    h: int,
    material: Material,
    t_min: int,
    t_max: int,
)
    requires
        1 <= rho < h <= 2000,
        0 <= t_min < (h - rho) * SCALE,
        (h - rho) * SCALE < t_max,
    ensures
        ({
            let s = SphereModel { center: v3_zero(), radius: rho * SCALE, material };
            let r = RayModel {
                origin: V3 { x: 0, y: 0, z: h * SCALE },
                direction: V3 { x: 0, y: 0, z: -SCALE },
            };
            let expected = HitModel {
                parameter: (h - rho) * SCALE,
                point: V3 { x: 0, y: 0, z: rho * SCALE },
                normal: V3 { x: 0, y: 0, z: SCALE as int },
                material,
            };
            &&& sphere_hit_model(s, r, t_min, t_max) == Option::Some(expected)
            &&& dot3(expected.normal, expected.normal) == SCALE
            &&& cross3(expected.normal, v3_sub(expected.point, s.center)) == v3_zero()
        }),
{
    let s = SphereModel { center: v3_zero(), radius: rho * SCALE, material };
    let r = RayModel {
        origin: V3 { x: 0, y: 0, z: h * SCALE },
        direction: V3 { x: 0, y: 0, z: -SCALE },
    };
    lemma_tdiv_zero(SCALE as int);
    lemma_tdiv_zero(rho * SCALE);
    // the quadratic's coefficients, all exact multiples of SCALE
    assert((-SCALE) * (-SCALE) == (SCALE as int) * SCALE) by (nonlinear_arith);
    lemma_tdiv_mult_exact(SCALE as int, SCALE as int);
    assert(sph_a(r) == SCALE);
    assert((h * SCALE) * (-SCALE) == (-(h * SCALE)) * SCALE) by (nonlinear_arith);
    lemma_tdiv_mult_exact(-(h * SCALE), SCALE as int);
    assert(sph_b(s, r) == -(h * SCALE));
    assert((h * SCALE) * (h * SCALE) == ((h * h) * SCALE) * SCALE) by (nonlinear_arith);
    lemma_tdiv_mult_exact((h * h) * SCALE, SCALE as int);
    assert((rho * SCALE) * (rho * SCALE) == ((rho * rho) * SCALE) * SCALE) by (nonlinear_arith);
    lemma_tdiv_mult_exact((rho * rho) * SCALE, SCALE as int);
    assert(sph_c(s, r) == (h * h) * SCALE - (rho * rho) * SCALE);
    // the discriminant collapses to rho^2
    assert(sph_b(s, r) * sph_b(s, r) - sph_a(r) * sph_c(s, r) == ((rho * rho) * SCALE) * SCALE)
        by (nonlinear_arith)
        requires sph_b(s, r) == -(h * SCALE) && sph_a(r) == SCALE
            && sph_c(s, r) == (h * h) * SCALE - (rho * rho) * SCALE;
    assert(sph_disc(s, r) == (rho * rho) * SCALE);
    assert(sph_disc(s, r) > 0) by (nonlinear_arith)
        requires sph_disc(s, r) == (rho * rho) * SCALE && rho >= 1 && SCALE > 0;
    // its square root is exactly rho
    assert(((rho * rho) * SCALE) * SCALE == (rho * SCALE) * (rho * SCALE)) by (nonlinear_arith);
    assert(rho * SCALE >= 0) by (nonlinear_arith)
        requires rho >= 1 && SCALE > 0;
    assert((rho * SCALE) * (rho * SCALE) < (rho * SCALE + 1) * (rho * SCALE + 1))
        by (nonlinear_arith)
        requires rho * SCALE >= 0;
    lemma_sqrt_floor_unique((((rho * rho) * SCALE) * SCALE) as nat, (rho * SCALE) as nat);
    assert(sph_sqrt_disc(s, r) == rho * SCALE);
    // the near root lands at (h - rho) exactly
    assert(-sph_b(s, r) - sph_sqrt_disc(s, r) == (h - rho) * SCALE) by (nonlinear_arith)
        requires sph_b(s, r) == -(h * SCALE) && sph_sqrt_disc(s, r) == rho * SCALE;
    lemma_tdiv_mult_exact((h - rho) * SCALE, SCALE as int);
    assert(sph_root1(s, r) == (h - rho) * SCALE);
    let t = (h - rho) * SCALE;
    // the hit point lands on the surface exactly
    assert(0 * t == 0) by (nonlinear_arith);
    assert((-SCALE) * t == (-(h - rho) * SCALE) * SCALE) by (nonlinear_arith)
        requires t == (h - rho) * SCALE;
    lemma_tdiv_mult_exact(-(h - rho) * SCALE, SCALE as int);
    assert(point_at3(r, t).x == 0 && point_at3(r, t).y == 0);
    assert(point_at3(r, t).z == h * SCALE + (-(h - rho) * SCALE));
    assert(h * SCALE + (-(h - rho) * SCALE) == rho * SCALE) by (nonlinear_arith);
    // the normal is exactly the unit axis vector
    assert((rho * SCALE) * SCALE == (SCALE as int) * (rho * SCALE)) by (nonlinear_arith);
    lemma_tdiv_mult_exact(SCALE as int, rho * SCALE);
    let n = hit_normal(s, r, t);
    assert(n.x == 0 && n.y == 0 && n.z == SCALE);
    assert(dot3(n, n) == SCALE);
    assert(near_unit(n));
}

} // verus!
