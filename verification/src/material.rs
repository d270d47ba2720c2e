//! Materials: the closed set of surface behaviours a sphere can carry.

use vstd::prelude::*;
use vstd::math::abs;
use rand::rngs::StdRng;

verus! {

use crate::SCALE;
use crate::fixed::{
    tdiv, fmul, fdiv, fsqrt, fx_mul, fx_div, fx_sqrt,
    lemma_tdiv_zero, lemma_tdiv_bound, lemma_tdiv_mult_exact, lemma_tdiv_remainder,
    lemma_fmul_bound, lemma_fmul_self_nonneg,
};
use crate::geometry::{
    Vec3, V3, Ray, RayModel, v3_add, v3_sub, v3_neg, v3_one, v3_zero, v3_scale, dot3, raw_sq, len3,
    unit3, bounded3, DIR_MAX,
    lemma_dot3_bound, lemma_unit3_bounded, lemma_abs_mul_le,
    lemma_len3_upper, lemma_len3_lower_scale, lemma_dot_normal_bound, lemma_fdiv_bound_by_len,
};
use crate::hitable::{HitRecord, HitModel, HIT_POINT_MAX, NORM_EPS, near_unit};
use crate::random::{next_unit, next_symmetric};

/// Smallest refractive index a dielectric may carry (1/4 in real units).
pub const REF_IDX_MIN: i64 = 0x4000_0000;

/// Largest refractive index a dielectric may carry (4 in real units).
pub const REF_IDX_MAX: i64 = 0x4_0000_0000;

/// A surface material: diffuse, reflective, or refractive.
#[derive(Clone, Copy, Debug, PartialEq, Eq, Structural)]
pub enum Material {
    Lambertian(Vec3),
    Metal(Vec3, i64),
    Dielectric(i64),
}

/// An attenuation color: every channel within `[0, 1]`.
pub open spec fn albedo_wf(a: V3) -> bool {
    &&& 0 <= a.x <= SCALE
    &&& 0 <= a.y <= SCALE
    &&& 0 <= a.z <= SCALE
}

impl Material {
    /// A well-formed material: colors within `[0, 1]` per channel, fuzz in
    /// `[0, 1]`, and a refractive index within the machine's window.
    pub open spec fn wf(self) -> bool {
        match self {
            Material::Lambertian(albedo) => albedo_wf(albedo@),
            Material::Metal(albedo, fuzz) => albedo_wf(albedo@) && 0 <= fuzz <= SCALE,
            Material::Dielectric(ref_idx) => REF_IDX_MIN <= ref_idx <= REF_IDX_MAX,
        }
    }

    /// Decides `wf` at run time, for callers outside the proved world.
    pub fn wf_check(&self) -> (b: bool)
        ensures
            b == self.wf(),
    {
        match self {
            Material::Lambertian(albedo) => {
                0 <= albedo.x && albedo.x <= SCALE && 0 <= albedo.y && albedo.y <= SCALE
                    && 0 <= albedo.z && albedo.z <= SCALE
            },
            Material::Metal(albedo, fuzz) => {
                0 <= albedo.x && albedo.x <= SCALE && 0 <= albedo.y && albedo.y <= SCALE
                    && 0 <= albedo.z && albedo.z <= SCALE && 0 <= *fuzz && *fuzz <= SCALE
            },
            Material::Dielectric(ref_idx) => REF_IDX_MIN <= *ref_idx && *ref_idx <= REF_IDX_MAX,
        }
    }
}

/// A sample from the rejection sampler: strictly inside the unit ball.
pub open spec fn in_unit_ball(v: V3) -> bool {
    &&& bounded3(v, SCALE as int)
    &&& dot3(v, v) < SCALE
}

/// A hit record the scattering step can work on: the bounds that the
/// intersection query guarantees of every record it reports.
pub open spec fn hit_for_scatter(rec: HitModel) -> bool {
    &&& bounded3(rec.normal, 2 * SCALE)
    &&& bounded3(rec.point, HIT_POINT_MAX as int)
}

/// An incoming ray the scattering step can work on.
pub open spec fn ray_for_scatter(r: RayModel) -> bool {
    &&& bounded3(r.direction, DIR_MAX as int)
    &&& raw_sq(r.direction) >= SCALE
}

/// Mirror reflection about a normal: `v - n * (v . n) * 2`.
pub open spec fn reflect3(v: V3, n: V3) -> V3 {
    v3_sub(v, v3_scale(v3_scale(n, dot3(v, n)), 2 * SCALE))
}

/// What a diffuse surface does: attenuate by the albedo and bounce from the
/// hit point toward the normal, perturbed by a unit-ball sample.
pub open spec fn lambertian_scatter(albedo: V3, rec: HitModel, rs: V3) -> ScatterModel {
    ScatterModel {
        attenuation: albedo,
        scattered: RayModel { origin: rec.point, direction: v3_add(rec.normal, rs) },
    }
}

/// What a metal surface does: reflect the unit incoming direction, perturb
/// by `fuzz` times a unit-ball sample, and absorb a ray that would leave
/// into the surface.
pub open spec fn metal_scatter(
    albedo: V3,
    fuzz: int,
    r_in: RayModel,
    rec: HitModel,
    rs: V3,
) -> Option<ScatterModel> {
    let dir = v3_add(reflect3(unit3(r_in.direction), rec.normal), v3_scale(rs, fuzz));
    if dot3(dir, rec.normal) > 0 {
        Some(ScatterModel {
            attenuation: albedo,
            scattered: RayModel { origin: rec.point, direction: dir },
        })
    } else {
        None
    }
}

/// With zero fuzz, the perturbation vanishes exactly: a metal's scattered
/// direction is the mirror reflection of the unit incoming direction,
/// whatever was sampled.
pub proof fn lemma_metal_zero_fuzz_reflects(
    albedo: V3,
    r_in: RayModel,
    rec: HitModel,
    rs: V3,
)
    ensures
        match metal_scatter(albedo, 0, r_in, rec, rs) {
            Option::Some(sm) => sm.scattered.direction == reflect3(
                unit3(r_in.direction),
                rec.normal,
            ),
            Option::None => true,
        },
{
    crate::fixed::lemma_tdiv_zero(SCALE as int);
    assert(rs.x * 0 == 0 && rs.y * 0 == 0 && rs.z * 0 == 0) by (nonlinear_arith);
}

/// The refraction attempt's discriminant: `1 - ni^2 (1 - dt^2)` for
/// `dt = unit(v) . n`.
pub open spec fn refract_disc(v: V3, n: V3, ni_over_nt: int) -> int {
    let dt = dot3(unit3(v), n);
    SCALE - fmul(fmul(ni_over_nt, ni_over_nt), SCALE - fmul(dt, dt))
}

/// Snell refraction: the bent direction when the discriminant is positive,
/// nothing (total internal reflection) otherwise.
pub open spec fn refract3(v: V3, n: V3, ni_over_nt: int) -> Option<V3> {
    let uv = unit3(v);
    let dt = dot3(uv, n);
    let disc = refract_disc(v, n, ni_over_nt);
    if disc > 0 {
        Some(v3_sub(v3_scale(v3_sub(uv, v3_scale(n, dt)), ni_over_nt), v3_scale(n, fsqrt(disc))))
    } else {
        None
    }
}

/// The fifth power in fixed point, rounded as the squarings compute it.
pub open spec fn pow5_fx(x: int) -> int {
    let x2 = fmul(x, x);
    let x4 = fmul(x2, x2);
    fmul(x4, x)
}

/// The Schlick reflectance approximation:
/// `r0 + (1 - r0)(1 - cosine)^5` with `r0 = ((1 - n)/(1 + n))^2`.
pub open spec fn schlick_model(cosine: int, ref_idx: int) -> int {
    let r0s = fdiv(SCALE - ref_idx, SCALE + ref_idx);
    let r0 = fmul(r0s, r0s);
    r0 + fmul(SCALE - r0, pow5_fx(SCALE - cosine))
}

/// Whether a dielectric hit is being exited (the ray leaves the surface).
pub open spec fn dielectric_exiting(r_in: RayModel, rec: HitModel) -> bool {
    dot3(r_in.direction, rec.normal) > 0
}

/// The normal a dielectric refracts against: flipped when exiting.
pub open spec fn dielectric_outward(r_in: RayModel, rec: HitModel) -> V3 {
    if dielectric_exiting(r_in, rec) {
        v3_neg(rec.normal)
    } else {
        rec.normal
    }
}

/// The refraction ratio: the index when exiting, its reciprocal when entering.
pub open spec fn dielectric_ni(ref_idx: int, r_in: RayModel, rec: HitModel) -> int {
    if dielectric_exiting(r_in, rec) {
        ref_idx
    } else {
        fdiv(SCALE as int, ref_idx)
    }
}

/// The cosine handed to the Schlick approximation.
pub open spec fn dielectric_cosine(ref_idx: int, r_in: RayModel, rec: HitModel) -> int {
    let d_dot_n = dot3(r_in.direction, rec.normal);
    if dielectric_exiting(r_in, rec) {
        fdiv(fmul(ref_idx, d_dot_n), len3(r_in.direction))
    } else {
        fdiv(-d_dot_n, len3(r_in.direction))
    }
}

/// What a dielectric surface does for a uniform draw `u` in `[0, 1)`:
/// attempt refraction; on total internal reflection always reflect, and
/// otherwise reflect exactly when `u` falls below the Schlick reflectance.
pub open spec fn dielectric_scatter(
    ref_idx: int,
    r_in: RayModel,
    rec: HitModel,
    u: int,
) -> ScatterModel {
    let reflected = reflect3(r_in.direction, rec.normal);
    let direction = match refract3(
        r_in.direction,
        dielectric_outward(r_in, rec),
        dielectric_ni(ref_idx, r_in, rec),
    ) {
        Option::Some(refracted) => {
            if u < schlick_model(dielectric_cosine(ref_idx, r_in, rec), ref_idx) {
                reflected
            } else {
                refracted
            }
        },
        Option::None => reflected,
    };
    ScatterModel {
        attenuation: v3_one(),
        scattered: RayModel { origin: rec.point, direction },
    }
}

/// Mirror reflection of `v` about `n`, exactly `reflect3`.
pub fn reflect(v: Vec3, n: Vec3) -> (r: Vec3)
    requires
        bounded3(v@, DIR_MAX as int),
        bounded3(n@, 2 * SCALE),
    ensures
        r@ == reflect3(v@, n@),
{
    proof {
        lemma_reflect_bound(v@, DIR_MAX as int, n@);
    }
    let d = v.dot(&n);
    v.sub(n.scale(d).scale(2 * SCALE))
}

/// The reflection law: against a near-unit normal, the reflected direction's
/// dot with the normal negates the incoming one's, up to quantization — the
/// angle of incidence equals the angle of reflection. The tolerance `2^21`
/// raw units is about `2^-11` of a unit, driven by the normal's own `2^-16`
/// squared-length tolerance.
pub proof fn lemma_reflection_angle(u: V3, n: V3)
    requires
        bounded3(u, SCALE as int),
        near_unit(n),
    ensures
        abs(dot3(reflect3(u, n), n) + dot3(u, n)) <= 0x20_0000,
{
    let s = SCALE as int;
    let g = dot3(u, n);
    let q = dot3(n, n);
    let d = q - s;
    let refl = reflect3(u, n);
    // the incoming dot is within six units
    lemma_dot3_bound(u, n, s, 2 * s);
    assert(3 * ((s as int) * (2 * s)) == (6 * s) * s) by (nonlinear_arith);
    lemma_tdiv_mult_exact(6 * s, s);
    assert(abs(g) <= 6 * s);
    // remainders of the roundings
    let raw_un = u.x * n.x + u.y * n.y + u.z * n.z;
    let raw_nn = n.x * n.x + n.y * n.y + n.z * n.z;
    lemma_tdiv_remainder(raw_un, s);
    lemma_tdiv_remainder(raw_nn, s);
    let eu = raw_un - s * g;
    let en = raw_nn - s * q;
    let mx = fmul(n.x, g);
    let my = fmul(n.y, g);
    let mz = fmul(n.z, g);
    lemma_tdiv_remainder(n.x * g, s);
    lemma_tdiv_remainder(n.y * g, s);
    lemma_tdiv_remainder(n.z * g, s);
    let ex = n.x * g - s * mx;
    let ey = n.y * g - s * my;
    let ez = n.z * g - s * mz;
    // doubling by the fixed-point two is exact
    assert(mx * (2 * s) == (2 * mx) * s && my * (2 * s) == (2 * my) * s && mz * (2 * s) == (2
        * mz) * s) by (nonlinear_arith);
    lemma_tdiv_mult_exact(2 * mx, s);
    lemma_tdiv_mult_exact(2 * my, s);
    lemma_tdiv_mult_exact(2 * mz, s);
    assert(refl.x == u.x - 2 * mx && refl.y == u.y - 2 * my && refl.z == u.z - 2 * mz);
    // expand the reflected dot's numerator
    let raw_rn = refl.x * n.x + refl.y * n.y + refl.z * n.z;
    assert((u.x - 2 * mx) * n.x == u.x * n.x - 2 * (mx * n.x)) by (nonlinear_arith);
    assert((u.y - 2 * my) * n.y == u.y * n.y - 2 * (my * n.y)) by (nonlinear_arith);
    assert((u.z - 2 * mz) * n.z == u.z * n.z - 2 * (mz * n.z)) by (nonlinear_arith);
    let m_sum = mx * n.x + my * n.y + mz * n.z;
    assert(raw_rn == raw_un - 2 * m_sum);
    // rescale the projection sum
    assert(s * (mx * n.x) == g * (n.x * n.x) - n.x * ex) by (nonlinear_arith)
        requires s * mx == n.x * g - ex;
    assert(s * (my * n.y) == g * (n.y * n.y) - n.y * ey) by (nonlinear_arith)
        requires s * my == n.y * g - ey;
    assert(s * (mz * n.z) == g * (n.z * n.z) - n.z * ez) by (nonlinear_arith)
        requires s * mz == n.z * g - ez;
    let e_sum = n.x * ex + n.y * ey + n.z * ez;
    assert(s * m_sum == s * (mx * n.x) + s * (my * n.y) + s * (mz * n.z)) by (nonlinear_arith)
        requires m_sum == mx * n.x + my * n.y + mz * n.z;
    assert(g * raw_nn == g * (n.x * n.x) + g * (n.y * n.y) + g * (n.z * n.z)) by (nonlinear_arith)
        requires raw_nn == n.x * n.x + n.y * n.y + n.z * n.z;
    assert(s * m_sum == g * raw_nn - e_sum);
    // assemble: everything but the negated projection is quantization noise
    assert(s * (raw_rn + s * g) == -2 * (g * (s * d)) + s * eu - 2 * (g * en) + 2 * e_sum)
        by (nonlinear_arith)
        requires raw_rn == raw_un - 2 * m_sum && s * m_sum == g * raw_nn - e_sum && raw_un == s
            * g + eu && raw_nn == s * q + en && q == s + d;
    // bound the noise
    lemma_abs_mul_le(g, 6 * s, s * d, s * NORM_EPS);
    assert(abs(s * d) <= s * NORM_EPS) by (nonlinear_arith)
        requires abs(d) <= NORM_EPS && s > 0;
    lemma_abs_mul_le(g, 6 * s, en, s - 1);
    lemma_abs_mul_le(n.x, 2 * s, ex, s - 1);
    lemma_abs_mul_le(n.y, 2 * s, ey, s - 1);
    lemma_abs_mul_le(n.z, 2 * s, ez, s - 1);
    assert(abs(s * (raw_rn + s * g)) <= 786457 * (s * s)) by (nonlinear_arith)
        requires s * (raw_rn + s * g) == -2 * (g * (s * d)) + s * eu - 2 * (g * en) + 2 * e_sum
            && abs(g * (s * d)) <= (6 * s) * (s * NORM_EPS) && abs(eu) <= s - 1 && abs(g * en)
            <= (6 * s) * (s - 1) && abs(e_sum) <= 3 * ((2 * s) * (s - 1)) && s == 0x1_0000_0000
            && NORM_EPS == 0x1_0000;
    assert(abs(raw_rn + s * g) <= 786457 * s) by (nonlinear_arith)
        requires abs(s * (raw_rn + s * g)) <= 786457 * (s * s) && s > 0;
    // step down to the rounded dot product
    lemma_tdiv_remainder(raw_rn, s);
    assert(abs(dot3(refl, n) + g) <= 0x20_0000) by (nonlinear_arith)
        requires abs(raw_rn + s * g) <= 786457 * s && abs(raw_rn - s * dot3(refl, n)) <= s - 1
            && s == 0x1_0000_0000;
}

/// Reflection preserves length: for a near-unit incoming direction and a
/// near-unit normal, the reflected direction's squared length stays within
/// `2^-8` of one. The normal's own `2^-16` squared-length tolerance enters
/// quadratically through the projection, which sets the bound.
pub proof fn lemma_reflection_near_unit(u: V3, n: V3)
    requires
        bounded3(u, SCALE as int),
        abs(dot3(u, u) - SCALE) <= 0x4_0000,
        near_unit(n),
    ensures
        abs(dot3(reflect3(u, n), reflect3(u, n)) - SCALE) <= 0x100_0000,
{
    let s = SCALE as int;
    let g = dot3(u, n);
    let p = dot3(u, u);
    let q = dot3(n, n);
    let c = p - s;
    let d = q - s;
    let refl = reflect3(u, n);
    lemma_dot3_bound(u, n, s, 2 * s);
    assert(3 * ((s as int) * (2 * s)) == (6 * s) * s) by (nonlinear_arith);
    lemma_tdiv_mult_exact(6 * s, s);
    assert(abs(g) <= 6 * s);
    // remainders of the roundings
    let raw_un = u.x * n.x + u.y * n.y + u.z * n.z;
    let raw_nn = n.x * n.x + n.y * n.y + n.z * n.z;
    let raw_uu = u.x * u.x + u.y * u.y + u.z * u.z;
    lemma_tdiv_remainder(raw_un, s);
    lemma_tdiv_remainder(raw_nn, s);
    lemma_tdiv_remainder(raw_uu, s);
    let eu = raw_un - s * g;
    let en = raw_nn - s * q;
    let em = raw_uu - s * p;
    let mx = fmul(n.x, g);
    let my = fmul(n.y, g);
    let mz = fmul(n.z, g);
    lemma_tdiv_remainder(n.x * g, s);
    lemma_tdiv_remainder(n.y * g, s);
    lemma_tdiv_remainder(n.z * g, s);
    let ex = n.x * g - s * mx;
    let ey = n.y * g - s * my;
    let ez = n.z * g - s * mz;
    assert(mx * (2 * s) == (2 * mx) * s && my * (2 * s) == (2 * my) * s && mz * (2 * s) == (2
        * mz) * s) by (nonlinear_arith);
    lemma_tdiv_mult_exact(2 * mx, s);
    lemma_tdiv_mult_exact(2 * my, s);
    lemma_tdiv_mult_exact(2 * mz, s);
    assert(refl.x == u.x - 2 * mx && refl.y == u.y - 2 * my && refl.z == u.z - 2 * mz);
    // expand the reflected squared length
    let raw_rr = refl.x * refl.x + refl.y * refl.y + refl.z * refl.z;
    assert((u.x - 2 * mx) * (u.x - 2 * mx) == u.x * u.x - 4 * (u.x * mx) + 4 * (mx * mx))
        by (nonlinear_arith);
    assert((u.y - 2 * my) * (u.y - 2 * my) == u.y * u.y - 4 * (u.y * my) + 4 * (my * my))
        by (nonlinear_arith);
    assert((u.z - 2 * mz) * (u.z - 2 * mz) == u.z * u.z - 4 * (u.z * mz) + 4 * (mz * mz))
        by (nonlinear_arith);
    let um = u.x * mx + u.y * my + u.z * mz;
    let mm = mx * mx + my * my + mz * mz;
    assert(raw_rr == raw_uu - 4 * um + 4 * mm);
    // rescale the mixed sum
    let e_u_sum = u.x * ex + u.y * ey + u.z * ez;
    assert(s * (u.x * mx) == g * (u.x * n.x) - u.x * ex) by (nonlinear_arith)
        requires s * mx == n.x * g - ex;
    assert(s * (u.y * my) == g * (u.y * n.y) - u.y * ey) by (nonlinear_arith)
        requires s * my == n.y * g - ey;
    assert(s * (u.z * mz) == g * (u.z * n.z) - u.z * ez) by (nonlinear_arith)
        requires s * mz == n.z * g - ez;
    assert(s * um == s * (u.x * mx) + s * (u.y * my) + s * (u.z * mz)) by (nonlinear_arith)
        requires um == u.x * mx + u.y * my + u.z * mz;
    assert(g * raw_un == g * (u.x * n.x) + g * (u.y * n.y) + g * (u.z * n.z)) by (nonlinear_arith)
        requires raw_un == u.x * n.x + u.y * n.y + u.z * n.z;
    assert(s * um == g * raw_un - e_u_sum);
    // rescale the squared projection sum
    let e_n_sum = n.x * ex + n.y * ey + n.z * ez;
    let e_sq_sum = ex * ex + ey * ey + ez * ez;
    assert((s * mx) * (s * mx) == (n.x * g - ex) * (n.x * g - ex));
    assert((s * mx) * (s * mx) == (s * s) * (mx * mx)) by (nonlinear_arith);
    assert((n.x * g - ex) * (n.x * g - ex) == (g * g) * (n.x * n.x) - 2 * g * (n.x * ex) + ex
        * ex) by (nonlinear_arith);
    assert((s * my) * (s * my) == (n.y * g - ey) * (n.y * g - ey));
    assert((s * my) * (s * my) == (s * s) * (my * my)) by (nonlinear_arith);
    assert((n.y * g - ey) * (n.y * g - ey) == (g * g) * (n.y * n.y) - 2 * g * (n.y * ey) + ey
        * ey) by (nonlinear_arith);
    assert((s * mz) * (s * mz) == (n.z * g - ez) * (n.z * g - ez));
    assert((s * mz) * (s * mz) == (s * s) * (mz * mz)) by (nonlinear_arith);
    assert((n.z * g - ez) * (n.z * g - ez) == (g * g) * (n.z * n.z) - 2 * g * (n.z * ez) + ez
        * ez) by (nonlinear_arith);
    assert((s * s) * mm == (s * s) * (mx * mx) + (s * s) * (my * my) + (s * s) * (mz * mz))
        by (nonlinear_arith)
        requires mm == mx * mx + my * my + mz * mz;
    assert((g * g) * raw_nn == (g * g) * (n.x * n.x) + (g * g) * (n.y * n.y) + (g * g) * (n.z
        * n.z)) by (nonlinear_arith)
        requires raw_nn == n.x * n.x + n.y * n.y + n.z * n.z;
    assert(2 * g * e_n_sum == 2 * g * (n.x * ex) + 2 * g * (n.y * ey) + 2 * g * (n.z * ez))
        by (nonlinear_arith)
        requires e_n_sum == n.x * ex + n.y * ey + n.z * ez;
    assert((s * s) * mm == (g * g) * raw_nn - 2 * g * e_n_sum + e_sq_sum);
    // assemble: the leading squared-projection terms cancel
    assert((s * s) * raw_rr == (s * s) * raw_uu - 4 * (s * (s * um)) + 4 * ((s * s) * mm))
        by (nonlinear_arith)
        requires raw_rr == raw_uu - 4 * um + 4 * mm;
    assert(s * (s * um) == s * (g * raw_un) - s * e_u_sum) by (nonlinear_arith)
        requires s * um == g * raw_un - e_u_sum;
    assert(g * raw_un == (g * g) * s + g * eu) by (nonlinear_arith)
        requires raw_un == s * g + eu;
    assert(s * (g * raw_un) == (g * g) * (s * s) + s * (g * eu)) by (nonlinear_arith)
        requires g * raw_un == (g * g) * s + g * eu;
    assert(raw_nn == s * s + s * d + en) by (nonlinear_arith)
        requires raw_nn == s * q + en && q == s + d;
    assert((g * g) * raw_nn == (g * g) * (s * s) + (g * g) * (s * d) + (g * g) * en)
        by (nonlinear_arith)
        requires raw_nn == s * s + s * d + en;
    assert((s * s) * raw_uu == (s * s) * (s * s) + (s * s) * (s * c) + (s * s) * em)
        by (nonlinear_arith)
        requires raw_uu == s * p + em && p == s + c;
    assert((s * s) * (raw_rr - s * s) == (s * s) * raw_rr - (s * s) * (s * s))
        by (nonlinear_arith);
    assert(2 * g * e_n_sum == 2 * (g * e_n_sum)) by (nonlinear_arith);
    assert((s * s) * (raw_rr - s * s) == (s * s) * (s * c) + (s * s) * em - 4 * (s * (g * eu)) + 4
        * (s * e_u_sum) + 4 * ((g * g) * (s * d)) + 4 * ((g * g) * en) - 8 * (g * e_n_sum) + 4
        * e_sq_sum);
    // bound the noise
    lemma_abs_mul_le(g, 6 * s, eu, s - 1);
    lemma_abs_mul_le(u.x, s, ex, s - 1);
    lemma_abs_mul_le(u.y, s, ey, s - 1);
    lemma_abs_mul_le(u.z, s, ez, s - 1);
    lemma_abs_mul_le(n.x, 2 * s, ex, s - 1);
    lemma_abs_mul_le(n.y, 2 * s, ey, s - 1);
    lemma_abs_mul_le(n.z, 2 * s, ez, s - 1);
    lemma_abs_mul_le(ex, s - 1, ex, s - 1);
    lemma_abs_mul_le(ey, s - 1, ey, s - 1);
    lemma_abs_mul_le(ez, s - 1, ez, s - 1);
    assert(abs(s * d) <= s * NORM_EPS) by (nonlinear_arith)
        requires abs(d) <= NORM_EPS && s > 0;
    assert(abs(s * c) <= s * 0x4_0000) by (nonlinear_arith)
        requires abs(c) <= 0x4_0000 && s > 0;
    assert(ex * ex >= 0 && ey * ey >= 0 && ez * ez >= 0) by (nonlinear_arith);
    lemma_abs_mul_le(g, 6 * s, e_n_sum, 3 * ((2 * s) * (s - 1)));
    lemma_abs_mul_le(g, 6 * s, g, 6 * s);
    lemma_abs_mul_le(g * g, (6 * s) * (6 * s), s * d, s * NORM_EPS);
    lemma_abs_mul_le(g * g, (6 * s) * (6 * s), en, s - 1);
    assert(abs(s * (g * eu)) <= s * ((6 * s) * (s - 1))) by (nonlinear_arith)
        requires abs(g * eu) <= (6 * s) * (s - 1) && s > 0;
    assert(abs(s * e_u_sum) <= s * (3 * (s * (s - 1)))) by (nonlinear_arith)
        requires abs(e_u_sum) <= 3 * (s * (s - 1)) && s > 0;
    assert(abs((s * s) * (raw_rr - s * s)) <= 9699809 * ((s * s) * s)) by (nonlinear_arith)
        requires (s * s) * (raw_rr - s * s) == (s * s) * (s * c) + (s * s) * em - 4 * (s * (g
            * eu)) + 4 * (s * e_u_sum) + 4 * ((g * g) * (s * d)) + 4 * ((g * g) * en) - 8 * (g
            * e_n_sum) + 4 * e_sq_sum && abs(s * c) <= s * 0x4_0000 && abs(em) <= s - 1 && abs(s
            * (g * eu)) <= s * ((6 * s) * (s - 1)) && abs(s * e_u_sum) <= s * (3 * (s * (s - 1)))
            && abs((g * g) * (s * d)) <= ((6 * s) * (6 * s)) * (s * NORM_EPS) && abs((g * g) * en)
            <= ((6 * s) * (6 * s)) * (s - 1) && abs(g * e_n_sum) <= (6 * s) * (3 * ((2 * s) * (s
            - 1))) && 0 <= e_sq_sum <= 3 * ((s - 1) * (s - 1)) && s == 0x1_0000_0000
            && NORM_EPS == 0x1_0000;
    assert(abs(raw_rr - s * s) <= 9699809 * s) by (nonlinear_arith)
        requires abs((s * s) * (raw_rr - s * s)) <= 9699809 * ((s * s) * s) && s > 0;
    // step down to the rounded dot product
    lemma_tdiv_remainder(raw_rr, s);
    assert(abs(dot3(refl, refl) - s) <= 0x100_0000) by (nonlinear_arith)
        requires abs(raw_rr - s * s) <= 9699809 * s && abs(raw_rr - s * dot3(refl, refl)) <= s - 1
            && s == 0x1_0000_0000;
}

/// Every step of `reflect3` stays within 25 times the incoming bound.
pub proof fn lemma_reflect_bound(v: V3, vm: int, n: V3)
    requires
        bounded3(v, vm),
        bounded3(n, 2 * SCALE),
        vm >= 0,
    ensures
        abs(dot3(v, n)) <= 6 * vm,
        bounded3(v3_scale(n, dot3(v, n)), 12 * vm),
        bounded3(v3_scale(v3_scale(n, dot3(v, n)), 2 * SCALE), 24 * vm),
        bounded3(reflect3(v, n), 25 * vm),
{
    lemma_dot3_bound(v, n, vm, 2 * SCALE as int);
    assert(3 * (vm * (2 * SCALE)) == (6 * vm) * SCALE) by (nonlinear_arith);
    lemma_tdiv_mult_exact(6 * vm, SCALE as int);
    let d = dot3(v, n);
    lemma_fmul_bound(n.x, 2 * SCALE as int, d, 6 * vm);
    lemma_fmul_bound(n.y, 2 * SCALE as int, d, 6 * vm);
    lemma_fmul_bound(n.z, 2 * SCALE as int, d, 6 * vm);
    assert((2 * SCALE) * (6 * vm) == (12 * vm) * SCALE) by (nonlinear_arith);
    lemma_tdiv_mult_exact(12 * vm, SCALE as int);
    let s1 = v3_scale(n, d);
    lemma_fmul_bound(s1.x, 12 * vm, 2 * SCALE as int, 2 * SCALE as int);
    lemma_fmul_bound(s1.y, 12 * vm, 2 * SCALE as int, 2 * SCALE as int);
    lemma_fmul_bound(s1.z, 12 * vm, 2 * SCALE as int, 2 * SCALE as int);
    assert((12 * vm) * (2 * SCALE) == (24 * vm) * SCALE) by (nonlinear_arith);
    lemma_tdiv_mult_exact(24 * vm, SCALE as int);
}

/// The executable refraction result agrees with the model.
pub open spec fn opt_v3_matches(res: Option<Vec3>, m: Option<V3>) -> bool {
    match (res, m) {
        (Option::None, Option::None) => true,
        (Option::Some(rv), Option::Some(mv)) => rv@ == mv,
        _ => false,
    }
}

/// Snell refraction of `v` against `n`, exactly `refract3`: the bent
/// direction, or nothing on total internal reflection.
pub fn refract(v: Vec3, n: Vec3, ni_over_nt: i64) -> (res: Option<Vec3>)
    requires
        bounded3(v@, DIR_MAX as int),
        raw_sq(v@) >= SCALE,
        bounded3(n@, 2 * SCALE),
        0 <= ni_over_nt <= 4 * SCALE,
    ensures
        opt_v3_matches(res, refract3(v@, n@, ni_over_nt as int)),
{
    proof {
        lemma_unit3_bounded(v@);
    }
    let uv = v.unit_vector();
    proof {
        lemma_dot3_bound(uv@, n@, SCALE as int, 2 * SCALE as int);
        assert(tdiv(3 * ((SCALE as int) * (2 * SCALE)), SCALE as int) == 6 * SCALE) by {
            assert(3 * ((SCALE as int) * (2 * SCALE)) == (6 * SCALE) * SCALE) by (nonlinear_arith);
            lemma_tdiv_mult_exact(6 * SCALE, SCALE as int);
        }
    }
    let dt = uv.dot(&n);
    proof {
        lemma_fmul_bound(dt as int, 6 * SCALE, dt as int, 6 * SCALE);
        lemma_fmul_self_nonneg(dt as int);
        lemma_fmul_bound(ni_over_nt as int, 4 * SCALE, ni_over_nt as int, 4 * SCALE);
        lemma_fmul_self_nonneg(ni_over_nt as int);
    }
    let dt2 = fx_mul(dt, dt);
    let ni2 = fx_mul(ni_over_nt, ni_over_nt);
    proof {
        lemma_fmul_bound(ni2 as int, 16 * SCALE, SCALE - dt2 as int, 36 * SCALE);
    }
    let disc = SCALE - fx_mul(ni2, SCALE - dt2);
    if disc > 0 {
        let sd = fx_sqrt(disc);
        proof {
            lemma_fsqrt_small(disc as int);
            lemma_fmul_bound(n@.x, 2 * SCALE, dt as int, 6 * SCALE);
            lemma_fmul_bound(n@.y, 2 * SCALE, dt as int, 6 * SCALE);
            lemma_fmul_bound(n@.z, 2 * SCALE, dt as int, 6 * SCALE);
        }
        let slide = n.scale(dt);
        proof {
            lemma_scale_bound3(v3_sub(uv@, slide@), 13 * SCALE, ni_over_nt as int, 4 * SCALE);
            lemma_scale_bound3(n@, 2 * SCALE, sd as int, 25 * SCALE);
        }
        let bent = uv.sub(slide).scale(ni_over_nt);
        Some(bent.sub(n.scale(sd)))
    } else {
        None
    }
}

/// A positive refraction discriminant stays under `577` in fixed point, so
/// its square root stays under `25`.
/// The refraction law, normal component: when refraction happens against a
/// near-unit normal, the bent direction continues into the surface — its
/// dot with the normal is the negated square root of the discriminant, up
/// to quantization (about `2^-10` of a unit).
pub proof fn lemma_refraction_normal_component(v: V3, n: V3, ni: int)
    requires
        raw_sq(v) >= 1,
        near_unit(n),
        0 <= ni <= 4 * SCALE,
    ensures
        match refract3(v, n, ni) {
            Option::Some(w) => abs(
                dot3(w, n) + fsqrt(refract_disc(v, n, ni)),
            ) <= 0x40_0000,
            Option::None => true,
        },
{
    let s = SCALE as int;
    let uv = unit3(v);
    let dt = dot3(uv, n);
    let disc = refract_disc(v, n, ni);
    if disc > 0 {
        let w = refract3(v, n, ni)->Some_0;
        let sd = fsqrt(disc);
        lemma_unit3_bounded(v);
        lemma_dot3_bound(uv, n, s, 2 * s);
        assert(3 * ((s as int) * (2 * s)) == (6 * s) * s) by (nonlinear_arith);
        lemma_tdiv_mult_exact(6 * s, s);
        assert(abs(dt) <= 6 * s);
        // the discriminant and its root are small
        lemma_fmul_bound(dt, 6 * s, dt, 6 * s);
        lemma_fmul_self_nonneg(dt);
        assert((6 * s) * (6 * s) == (36 * s) * s) by (nonlinear_arith);
        lemma_tdiv_mult_exact(36 * s, s);
        lemma_fmul_bound(ni, 4 * s, ni, 4 * s);
        lemma_fmul_self_nonneg(ni);
        assert((4 * s) * (4 * s) == (16 * s) * s) by (nonlinear_arith);
        lemma_tdiv_mult_exact(16 * s, s);
        lemma_fmul_bound(fmul(ni, ni), 16 * s, s - fmul(dt, dt), 36 * s);
        assert((16 * s) * (36 * s) == (576 * s) * s) by (nonlinear_arith);
        lemma_tdiv_mult_exact(576 * s, s);
        assert(0 < disc <= 577 * s);
        lemma_fsqrt_small(disc);
        assert(0 <= sd <= 25 * s);
        // remainders of the roundings
        let raw_un = uv.x * n.x + uv.y * n.y + uv.z * n.z;
        let raw_nn = n.x * n.x + n.y * n.y + n.z * n.z;
        lemma_tdiv_remainder(raw_un, s);
        lemma_tdiv_remainder(raw_nn, s);
        let q = dot3(n, n);
        let dn = q - s;
        let et = raw_un - s * dt;
        let en = raw_nn - s * q;
        let mx = fmul(n.x, dt);
        let my = fmul(n.y, dt);
        let mz = fmul(n.z, dt);
        lemma_tdiv_remainder(n.x * dt, s);
        lemma_tdiv_remainder(n.y * dt, s);
        lemma_tdiv_remainder(n.z * dt, s);
        let gx = n.x * dt - s * mx;
        let gy = n.y * dt - s * my;
        let gz = n.z * dt - s * mz;
        let ix = uv.x - mx;
        let iy = uv.y - my;
        let iz = uv.z - mz;
        let px = fmul(ix, ni);
        let py = fmul(iy, ni);
        let pz = fmul(iz, ni);
        lemma_tdiv_remainder(ix * ni, s);
        lemma_tdiv_remainder(iy * ni, s);
        lemma_tdiv_remainder(iz * ni, s);
        let ax = ix * ni - s * px;
        let ay = iy * ni - s * py;
        let az = iz * ni - s * pz;
        let qx = fmul(n.x, sd);
        let qy = fmul(n.y, sd);
        let qz = fmul(n.z, sd);
        lemma_tdiv_remainder(n.x * sd, s);
        lemma_tdiv_remainder(n.y * sd, s);
        lemma_tdiv_remainder(n.z * sd, s);
        let bx = n.x * sd - s * qx;
        let by = n.y * sd - s * qy;
        let bz = n.z * sd - s * qz;
        assert(w.x == px - qx && w.y == py - qy && w.z == pz - qz);
        // rescale the bent direction's dot with the normal
        let raw_wn = w.x * n.x + w.y * n.y + w.z * n.z;
        assert(n.x * (s * w.x) == ni * (n.x * ix) - n.x * ax - sd * (n.x * n.x) + n.x * bx)
            by (nonlinear_arith)
            requires s * w.x == ix * ni - ax - (n.x * sd - bx);
        assert(n.y * (s * w.y) == ni * (n.y * iy) - n.y * ay - sd * (n.y * n.y) + n.y * by)
            by (nonlinear_arith)
            requires s * w.y == iy * ni - ay - (n.y * sd - by);
        assert(n.z * (s * w.z) == ni * (n.z * iz) - n.z * az - sd * (n.z * n.z) + n.z * bz)
            by (nonlinear_arith)
            requires s * w.z == iz * ni - az - (n.z * sd - bz);
        let inner_dot = n.x * ix + n.y * iy + n.z * iz;
        let a_sum = n.x * ax + n.y * ay + n.z * az;
        let b_sum = n.x * bx + n.y * by + n.z * bz;
        assert(s * raw_wn == s * (w.x * n.x) + s * (w.y * n.y) + s * (w.z * n.z))
            by (nonlinear_arith)
            requires raw_wn == w.x * n.x + w.y * n.y + w.z * n.z;
        assert(s * (w.x * n.x) == n.x * (s * w.x)) by (nonlinear_arith);
        assert(s * (w.y * n.y) == n.y * (s * w.y)) by (nonlinear_arith);
        assert(s * (w.z * n.z) == n.z * (s * w.z)) by (nonlinear_arith);
        assert(ni * inner_dot == ni * (n.x * ix) + ni * (n.y * iy) + ni * (n.z * iz))
            by (nonlinear_arith)
            requires inner_dot == n.x * ix + n.y * iy + n.z * iz;
        assert(sd * raw_nn == sd * (n.x * n.x) + sd * (n.y * n.y) + sd * (n.z * n.z))
            by (nonlinear_arith)
            requires raw_nn == n.x * n.x + n.y * n.y + n.z * n.z;
        assert(s * raw_wn == ni * inner_dot - a_sum - sd * raw_nn + b_sum);
        // the projected inner direction is pure quantization noise
        let g_sum = n.x * gx + n.y * gy + n.z * gz;
        assert(s * (n.x * mx) == dt * (n.x * n.x) - n.x * gx) by (nonlinear_arith)
            requires s * mx == n.x * dt - gx;
        assert(s * (n.y * my) == dt * (n.y * n.y) - n.y * gy) by (nonlinear_arith)
            requires s * my == n.y * dt - gy;
        assert(s * (n.z * mz) == dt * (n.z * n.z) - n.z * gz) by (nonlinear_arith)
            requires s * mz == n.z * dt - gz;
        let m_dot = n.x * mx + n.y * my + n.z * mz;
        assert(s * m_dot == s * (n.x * mx) + s * (n.y * my) + s * (n.z * mz)) by (nonlinear_arith)
            requires m_dot == n.x * mx + n.y * my + n.z * mz;
        assert(dt * raw_nn == dt * (n.x * n.x) + dt * (n.y * n.y) + dt * (n.z * n.z))
            by (nonlinear_arith)
            requires raw_nn == n.x * n.x + n.y * n.y + n.z * n.z;
        assert(s * m_dot == dt * raw_nn - g_sum);
        assert(n.x * ix == uv.x * n.x - n.x * mx) by (nonlinear_arith)
            requires ix == uv.x - mx;
        assert(n.y * iy == uv.y * n.y - n.y * my) by (nonlinear_arith)
            requires iy == uv.y - my;
        assert(n.z * iz == uv.z * n.z - n.z * mz) by (nonlinear_arith)
            requires iz == uv.z - mz;
        assert(inner_dot == raw_un - m_dot);
        assert(s * inner_dot == s * raw_un - s * m_dot) by (nonlinear_arith)
            requires inner_dot == raw_un - m_dot;
        assert(dt * raw_nn == dt * (s * s) + dt * (s * dn) + dt * en) by (nonlinear_arith)
            requires raw_nn == s * q + en && q == s + dn;
        assert(s * raw_un == dt * (s * s) + s * et) by (nonlinear_arith)
            requires raw_un == s * dt + et;
        assert(s * inner_dot == s * et - dt * (s * dn) - dt * en + g_sum);
        // assemble and cancel the leading terms
        assert(s * (s * raw_wn) == ni * (s * inner_dot) - s * a_sum - sd * (s * raw_nn) + s
            * b_sum) by (nonlinear_arith)
            requires s * raw_wn == ni * inner_dot - a_sum - sd * raw_nn + b_sum;
        assert(sd * (s * raw_nn) == (s * s) * (s * sd) + (s * s) * (sd * dn) + s * (sd * en))
            by (nonlinear_arith)
            requires raw_nn == s * q + en && q == s + dn;
        assert((s * s) * (raw_wn + s * sd) == s * (s * raw_wn) + (s * s) * (s * sd))
            by (nonlinear_arith);
        assert((s * s) * (raw_wn + s * sd) == ni * (s * inner_dot) - s * a_sum + s * b_sum - (s
            * s) * (sd * dn) - s * (sd * en));
        // bound the noise
        assert(abs(s * et) <= s * s && abs(dt * en) <= (6 * s) * s) by (nonlinear_arith)
            requires abs(et) <= s - 1 && abs(en) <= s - 1 && abs(dt) <= 6 * s && s > 0;
        assert(abs(dt * (s * dn)) <= (6 * s) * (s * NORM_EPS)) by (nonlinear_arith)
            requires abs(dt) <= 6 * s && abs(dn) <= NORM_EPS && s > 0;
        lemma_abs_mul_le(n.x, 2 * s, gx, s - 1);
        lemma_abs_mul_le(n.y, 2 * s, gy, s - 1);
        lemma_abs_mul_le(n.z, 2 * s, gz, s - 1);
        lemma_abs_mul_le(n.x, 2 * s, ax, s - 1);
        lemma_abs_mul_le(n.y, 2 * s, ay, s - 1);
        lemma_abs_mul_le(n.z, 2 * s, az, s - 1);
        lemma_abs_mul_le(n.x, 2 * s, bx, s - 1);
        lemma_abs_mul_le(n.y, 2 * s, by, s - 1);
        lemma_abs_mul_le(n.z, 2 * s, bz, s - 1);
        assert(abs(s * inner_dot) <= 393229 * (s * s)) by (nonlinear_arith)
            requires s * inner_dot == s * et - dt * (s * dn) - dt * en + g_sum && abs(s * et) <= s
                * s && abs(dt * (s * dn)) <= (6 * s) * (s * NORM_EPS) && abs(dt * en) <= (6 * s)
                * s && abs(g_sum) <= 3 * ((2 * s) * (s - 1)) && s == 0x1_0000_0000 && NORM_EPS
                == 0x1_0000;
        lemma_abs_mul_le(ni, 4 * s, s * inner_dot, 393229 * (s * s));
        lemma_abs_mul_le(sd, 25 * s, dn, NORM_EPS as int);
        lemma_abs_mul_le(sd, 25 * s, en, s - 1);
        assert(abs((s * s) * (raw_wn + s * sd)) <= 3211353 * ((s * s) * s)) by (nonlinear_arith)
            requires (s * s) * (raw_wn + s * sd) == ni * (s * inner_dot) - s * a_sum + s * b_sum
                - (s * s) * (sd * dn) - s * (sd * en) && abs(ni * (s * inner_dot)) <= (4 * s)
                * (393229 * (s * s)) && abs(a_sum) <= 3 * ((2 * s) * (s - 1)) && abs(b_sum) <= 3
                * ((2 * s) * (s - 1)) && abs(sd * dn) <= (25 * s) * NORM_EPS && abs(sd * en) <= (25
                * s) * (s - 1) && s == 0x1_0000_0000 && NORM_EPS == 0x1_0000;
        assert(abs(raw_wn + s * sd) <= 3211353 * s) by (nonlinear_arith)
            requires abs((s * s) * (raw_wn + s * sd)) <= 3211353 * ((s * s) * s) && s > 0;
        // step down to the rounded dot product
        lemma_tdiv_remainder(raw_wn, s);
        assert(abs(dot3(w, n) + sd) <= 0x40_0000) by (nonlinear_arith)
            requires abs(raw_wn + s * sd) <= 3211353 * s && abs(raw_wn - s * dot3(w, n)) <= s - 1
                && s == 0x1_0000_0000;
    }
}

proof fn lemma_fsqrt_small(disc: int)
    requires
        0 < disc <= 577 * SCALE,
    ensures
        0 <= fsqrt(disc) <= 25 * SCALE,
{
    let n = (disc * SCALE) as nat;
    assert(disc * SCALE >= 0) by (nonlinear_arith)
        requires disc > 0 && SCALE > 0;
    crate::fixed::lemma_sqrt_floor(n);
    let s = crate::fixed::sqrt_floor(n);
    if s > 25 * SCALE {
        assert(s * s > (25 * SCALE) * (25 * SCALE)) by (nonlinear_arith)
            requires s > 25 * (SCALE as nat);
        assert(disc * SCALE <= (577 * SCALE) * SCALE) by (nonlinear_arith)
            requires disc <= 577 * SCALE && SCALE > 0;
        assert((577 * SCALE) * SCALE < (25 * SCALE) * (25 * SCALE)) by (nonlinear_arith)
            requires SCALE == 0x1_0000_0000;
    }
}

/// A component bound and a scalar bound give a bound on `v3_scale`.
pub proof fn lemma_scale_bound3(a: V3, am: int, s: int, sm: int)
    requires
        bounded3(a, am),
        abs(s) <= sm,
        am >= 0,
        sm >= 0,
    ensures
        bounded3(v3_scale(a, s), tdiv(am * sm, SCALE as int)),
        tdiv(am * sm, SCALE as int) <= am * sm,
{
    lemma_fmul_bound(a.x, am, s, sm);
    lemma_fmul_bound(a.y, am, s, sm);
    lemma_fmul_bound(a.z, am, s, sm);
}

/// The Schlick reflectance in fixed point, exactly `schlick_model`.
pub fn schlick(cosine: i64, ref_idx: i64) -> (r: i64)
    requires
        REF_IDX_MIN <= ref_idx <= REF_IDX_MAX,
        -64 * SCALE <= cosine <= 64 * SCALE,
    ensures
        r == schlick_model(cosine as int, ref_idx as int),
{
    proof {
        lemma_r0s_within_unit(ref_idx as int);
    }
    let r0s = fx_div(SCALE - ref_idx, SCALE + ref_idx);
    proof {
        lemma_fmul_bound(r0s as int, SCALE - 1, r0s as int, SCALE - 1);
        lemma_fmul_self_nonneg(r0s as int);
    }
    let r0 = fx_mul(r0s, r0s);
    let d = SCALE - cosine;
    proof {
        lemma_fmul_bound(d as int, 65 * SCALE, d as int, 65 * SCALE);
        lemma_fmul_self_nonneg(d as int);
    }
    let p2 = fx_mul(d, d);
    proof {
        lemma_fmul_bound(p2 as int, 4225 * SCALE, p2 as int, 4225 * SCALE);
        lemma_fmul_self_nonneg(p2 as int);
    }
    let p4 = fx_mul(p2, p2);
    proof {
        lemma_fmul_bound(p4 as int, 17850625 * SCALE, d as int, 65 * SCALE);
    }
    let p5 = fx_mul(p4, d);
    proof {
        lemma_fmul_bound(SCALE - r0 as int, SCALE as int, p5 as int, 1160290625 * SCALE);
    }
    r0 + fx_mul(SCALE - r0, p5)
}

/// The Schlick base reflectance's square root `(1 - n)/(1 + n)` stays
/// strictly inside the unit interval for a positive index.
proof fn lemma_r0s_within_unit(ref_idx: int)
    requires
        REF_IDX_MIN <= ref_idx <= REF_IDX_MAX,
    ensures
        abs(fdiv(SCALE - ref_idx, SCALE + ref_idx)) <= SCALE - 1,
{
    let num = SCALE - ref_idx;
    let den = SCALE + ref_idx;
    assert(abs(num) <= den - 1);
    assert(abs(num * SCALE) <= (den - 1) * SCALE) by (nonlinear_arith)
        requires abs(num) <= den - 1 && SCALE > 0 && abs(num * SCALE) == abs(num) * (SCALE as int);
    assert(abs(num * SCALE) == abs(num) * (SCALE as int)) by (nonlinear_arith);
    lemma_tdiv_bound(num * SCALE, den, (den - 1) * SCALE);
    assert((den - 1) * SCALE == den * (SCALE - 1) + (den - SCALE)) by (nonlinear_arith);
    vstd::arithmetic::div_mod::lemma_div_multiples_vanish_fancy(SCALE - 1, den - SCALE, den);
}

/// A point uniformly inside the unit ball, by rejection sampling with a
/// deterministic fallback at the retry cap.
pub fn random_in_unit_sphere(rng: &mut StdRng) -> (v: Vec3)
    ensures
        in_unit_ball(v@),
{
    let mut tries: u32 = 0;
    while tries < 64
        invariant
            true,
        decreases 64 - tries,
    {
        let point = Vec3::new(next_symmetric(rng), next_symmetric(rng), next_symmetric(rng));
        proof {
            lemma_dot3_bound(point@, point@, SCALE as int, SCALE as int);
        }
        if point.dot(&point) < SCALE {
            return point;
        }
        tries += 1;
    }
    proof {
        lemma_tdiv_zero(SCALE as int);
    }
    Vec3::zero()
}

/// Mathematical model of a scatter decision that produced a ray.
pub ghost struct ScatterModel {
    pub attenuation: V3,
    pub scattered: RayModel,
}

/// The executable scatter result agrees with the model, field for field.
pub open spec fn scatter_matches(res: Option<(Vec3, Ray)>, m: Option<ScatterModel>) -> bool {
    match (res, m) {
        (Option::None, Option::None) => true,
        (Option::Some(pair), Option::Some(sm)) => pair.0@ == sm.attenuation && pair.1@
            == sm.scattered,
        _ => false,
    }
}

/// One bounce's randomness: a unit-ball sample and a uniform draw. A
/// diffuse or metal bounce reads the sample; a dielectric reads the draw.
pub ghost struct DrawModel {
    pub sample: V3,
    pub coin: int,
}

pub open spec fn draw_wf(d: DrawModel) -> bool {
    &&& in_unit_ball(d.sample)
    &&& 0 <= d.coin < SCALE
}

/// What any material does with one bounce's randomness: the per-variant
/// scatter models, dispatched on the variant.
pub open spec fn scatter_model(
    material: Material,
    r_in: RayModel,
    rec: HitModel,
    d: DrawModel,
) -> Option<ScatterModel> {
    match material {
        Material::Lambertian(albedo) => Some(lambertian_scatter(albedo@, rec, d.sample)),
        Material::Metal(albedo, fuzz) => metal_scatter(albedo@, fuzz as int, r_in, rec, d.sample),
        Material::Dielectric(ref_idx) => Some(dielectric_scatter(ref_idx as int, r_in, rec, d.coin)),
    }
}

/// Decides whether and how a ray continues after the hit: the attenuation
/// and the scattered ray, or nothing on absorption. The result matches the
/// material's scatter model for the random values that were drawn.
pub fn scatter(material: Material, r_in: &Ray, rec: &HitRecord, rng: &mut StdRng) -> (res: Option<
    (Vec3, Ray),
>)
    requires
        material.wf(),
        ray_for_scatter(r_in@),
        hit_for_scatter(rec@),
    ensures
        exists|d: DrawModel|
            #[trigger] draw_wf(d) && scatter_matches(res, scatter_model(material, r_in@, rec@, d)),
        match res {
            Option::Some(pair) => albedo_wf(pair.0@) && pair.1@.origin == rec@.point,
            Option::None => true,
        },
{
    match material {
        Material::Lambertian(albedo) => {
            let rs = random_in_unit_sphere(rng);
            let target = rec.point.add(rec.normal).add(rs);
            let scattered = Ray::new(rec.point, target.sub(rec.point));
            let res = Some((albedo, scattered));
            proof {
                assert(scattered@.direction == v3_add(rec@.normal, rs@));
                lemma_scatter_witness(
                    res,
                    material,
                    r_in@,
                    rec@,
                    DrawModel { sample: rs@, coin: 0 },
                );
            }
            res
        },
        Material::Metal(albedo, fuzz) => {
            let rs = random_in_unit_sphere(rng);
            proof {
                lemma_unit3_bounded(r_in@.direction);
            }
            let reflected = reflect(r_in.direction().unit_vector(), rec.normal);
            proof {
                lemma_reflect_bound(unit3(r_in@.direction), SCALE as int, rec@.normal);
                lemma_scale_bound3(rs@, SCALE as int, fuzz as int, SCALE as int);
            }
            let scattered = Ray::new(rec.point, reflected.add(rs.scale(fuzz)));
            proof {
                lemma_dot3_bound(scattered@.direction, rec@.normal, 26 * SCALE, 2 * SCALE);
            }
            let res = if scattered.direction().dot(&rec.normal) > 0 {
                Some((albedo, scattered))
            } else {
                None
            };
            proof {
                lemma_scatter_witness(
                    res,
                    material,
                    r_in@,
                    rec@,
                    DrawModel { sample: rs@, coin: 0 },
                );
            }
            res
        },
        Material::Dielectric(ref_idx) => {
            let reflected = reflect(r_in.direction(), rec.normal);
            proof {
                lemma_dot_normal_bound(r_in@.direction, rec@.normal);
                lemma_len3_upper(r_in@.direction, DIR_MAX as int);
                lemma_len3_lower_scale(r_in@.direction);
            }
            let d_dot_n = r_in.direction().dot(&rec.normal);
            let len = r_in.direction().length();
            let attenuation = Vec3::one();
            let (outward, ni_over_nt, cosine) = if d_dot_n > 0 {
                proof {
                    lemma_ref_times_dot_bound(ref_idx as int, d_dot_n as int, len as int);
                }
                let q = fx_mul(ref_idx, d_dot_n);
                proof {
                    lemma_fdiv_bound_by_len(q as int, len as int, 24);
                }
                (rec.normal.neg(), ref_idx, fx_div(q, len))
            } else {
                proof {
                    lemma_reciprocal_index_bound(ref_idx as int);
                    lemma_fdiv_bound_by_len(-(d_dot_n as int), len as int, 6);
                }
                (rec.normal, fx_div(SCALE, ref_idx), fx_div(-d_dot_n, len))
            };
            let res = match refract(r_in.direction(), outward, ni_over_nt) {
                Option::Some(refracted) => {
                    let reflect_prob = schlick(cosine, ref_idx);
                    let u = next_unit(rng);
                    if u < reflect_prob {
                        let res = Some((attenuation, Ray::new(rec.point, reflected)));
                        proof {
                            lemma_zero_draw_wf(u as int);
                            lemma_scatter_witness(
                                res,
                                material,
                                r_in@,
                                rec@,
                                DrawModel { sample: v3_zero(), coin: u as int },
                            );
                        }
                        res
                    } else {
                        let res = Some((attenuation, Ray::new(rec.point, refracted)));
                        proof {
                            lemma_zero_draw_wf(u as int);
                            lemma_scatter_witness(
                                res,
                                material,
                                r_in@,
                                rec@,
                                DrawModel { sample: v3_zero(), coin: u as int },
                            );
                        }
                        res
                    }
                },
                Option::None => {
                    let res = Some((attenuation, Ray::new(rec.point, reflected)));
                    proof {
                        lemma_zero_draw_wf(0);
                        lemma_scatter_witness(
                            res,
                            material,
                            r_in@,
                            rec@,
                            DrawModel { sample: v3_zero(), coin: 0 },
                        );
                    }
                    res
                },
            };
            res
        },
    }
}

/// Introduces the existential witness for the draw that was made.
proof fn lemma_scatter_witness(
    res: Option<(Vec3, Ray)>,
    material: Material,
    r_in: RayModel,
    rec: HitModel,
    d: DrawModel,
)
    requires
        draw_wf(d),
        scatter_matches(res, scatter_model(material, r_in, rec, d)),
    ensures
        exists|dd: DrawModel|
            #[trigger] draw_wf(dd) && scatter_matches(res, scatter_model(material, r_in, rec, dd)),
{
    assert(draw_wf(d) && scatter_matches(res, scatter_model(material, r_in, rec, d)));
}

/// The zero vector sits inside the unit ball, so it pairs with any coin
/// into a well-formed draw.
pub proof fn lemma_zero_draw_wf(coin: int)
    requires
        0 <= coin < SCALE,
    ensures
        draw_wf(DrawModel { sample: v3_zero(), coin }),
{
    lemma_tdiv_zero(SCALE as int);
    assert(0int * 0 + 0 * 0 + 0 * 0 == 0) by (nonlinear_arith);
    assert(dot3(v3_zero(), v3_zero()) == tdiv(0, SCALE as int));
}

/// Scaling the dot product by the refractive index keeps it within
/// twenty-four lengths.
proof fn lemma_ref_times_dot_bound(ref_idx: int, d_dot_n: int, len: int)
    requires
        0 < ref_idx <= 4 * SCALE,
        abs(d_dot_n) <= 6 * len,
        len >= 1,
    ensures
        abs(fmul(ref_idx, d_dot_n)) <= 24 * len,
{
    lemma_fmul_bound(ref_idx, 4 * SCALE, d_dot_n, 6 * len);
    assert((4 * SCALE) * (6 * len) == (24 * len) * SCALE) by (nonlinear_arith);
    lemma_tdiv_mult_exact(24 * len, SCALE as int);
}

/// Diffuse and metal attenuation never increase per-channel energy: for a
/// well-formed material, every attenuation the scatter model can produce
/// keeps each channel within `[0, 1]`, whatever was sampled.
pub proof fn lemma_scatter_attenuation_no_gain(
    material: Material,
    r_in: RayModel,
    rec: HitModel,
    rs: V3,
    u: int,
)
    requires
        material.wf(),
    ensures
        match material {
            Material::Lambertian(albedo) => albedo_wf(
                lambertian_scatter(albedo@, rec, rs).attenuation,
            ),
            Material::Metal(albedo, fuzz) => match metal_scatter(
                albedo@,
                fuzz as int,
                r_in,
                rec,
                rs,
            ) {
                Option::Some(sm) => albedo_wf(sm.attenuation),
                Option::None => true,
            },
            Material::Dielectric(ref_idx) => albedo_wf(
                dielectric_scatter(ref_idx as int, r_in, rec, u).attenuation,
            ),
        },
{
}

/// Total internal reflection: when the refraction attempt's discriminant is
/// not positive, a dielectric always reflects — the refraction branch is
/// never taken, whatever the uniform draw.
pub proof fn lemma_total_internal_reflection(
    ref_idx: int,
    r_in: RayModel,
    rec: HitModel,
    u: int,
)
    requires
        refract_disc(
            r_in.direction,
            dielectric_outward(r_in, rec),
            dielectric_ni(ref_idx, r_in, rec),
        ) <= 0,
    ensures
        dielectric_scatter(ref_idx, r_in, rec, u).scattered.direction == reflect3(
            r_in.direction,
            rec.normal,
        ),
{
}

/// The reciprocal of a well-formed refractive index stays within `[0, 4]`.
proof fn lemma_reciprocal_index_bound(ref_idx: int)
    requires
        REF_IDX_MIN <= ref_idx <= REF_IDX_MAX,
    ensures
        0 <= fdiv(SCALE as int, ref_idx) <= 4 * SCALE,
{
    vstd::arithmetic::div_mod::lemma_div_pos_is_pos(SCALE * SCALE, ref_idx);
    vstd::arithmetic::div_mod::lemma_div_is_ordered_by_denominator(
        SCALE * SCALE,
        REF_IDX_MIN as int,
        ref_idx,
    );
}

} // verus!
