//! Geometry representations.
//!
//! [`Vec3`] is a vector in 3-space over fixed-point scalars; [`Ray`] is an
//! origin plus a direction. Each has a ghost model ([`V3`], [`RayModel`])
//! of unbounded integers, and every operation's contract states its result
//! exactly over those models.

use vstd::prelude::*;
use vstd::math::abs;
use vstd::arithmetic::div_mod::lemma_div_multiples_vanish;

verus! {

use crate::SCALE;
use crate::fixed::{
    tdiv, fmul, fdiv, sqrt_floor, fx_mul, fx_div, div_trunc, isqrt,
    lemma_tdiv_bound, lemma_tdiv_remainder, lemma_sqrt_floor, lemma_sqrt_floor_dominates,
};

/// Largest component magnitude the vector operations accept: keeps every
/// intermediate product of a dot, cross or length inside `i128`.
pub const VEC_ABS_MAX: i64 = 0x4000_0000_0000_0000;

/// Largest ray-origin component for an intersection query (8192 in real units).
pub const ORIGIN_MAX: i64 = 0x2000_0000_0000;

/// Largest ray-direction component for an intersection query (16384 in real units).
pub const DIR_MAX: i64 = 0x4000_0000_0000;

/// Mathematical model of a vector: three unbounded fixed-point scalars.
pub ghost struct V3 {
    pub x: int,
    pub y: int,
    pub z: int,
}

/// Mathematical model of a ray.
pub ghost struct RayModel {
    pub origin: V3,
    pub direction: V3,
}

pub open spec fn v3_zero() -> V3 {
    V3 { x: 0, y: 0, z: 0 }
}

pub open spec fn v3_one() -> V3 {
    V3 { x: SCALE as int, y: SCALE as int, z: SCALE as int }
}

pub open spec fn v3_add(a: V3, b: V3) -> V3 {
    V3 { x: a.x + b.x, y: a.y + b.y, z: a.z + b.z }
}

pub open spec fn v3_sub(a: V3, b: V3) -> V3 {
    V3 { x: a.x - b.x, y: a.y - b.y, z: a.z - b.z }
}

pub open spec fn v3_neg(a: V3) -> V3 {
    V3 { x: -a.x, y: -a.y, z: -a.z }
}

/// Component-wise fixed-point product.
pub open spec fn v3_mul(a: V3, b: V3) -> V3 {
    V3 { x: fmul(a.x, b.x), y: fmul(a.y, b.y), z: fmul(a.z, b.z) }
}

/// Fixed-point scaling by a scalar.
pub open spec fn v3_scale(a: V3, s: int) -> V3 {
    V3 { x: fmul(a.x, s), y: fmul(a.y, s), z: fmul(a.z, s) }
}

/// Fixed-point division by a scalar.
pub open spec fn v3_div(a: V3, s: int) -> V3 {
    V3 { x: fdiv(a.x, s), y: fdiv(a.y, s), z: fdiv(a.z, s) }
}

/// Fixed-point dot product, rounded once after the exact sum of products.
pub open spec fn dot3(a: V3, b: V3) -> int {
    tdiv(a.x * b.x + a.y * b.y + a.z * b.z, SCALE as int)
}

/// The exact (unscaled) sum of squared raw components. For a vector of real
/// magnitude `m` this is `m^2 * SCALE^2`, so its square root is the length
/// in raw fixed-point units.
pub open spec fn raw_sq(a: V3) -> int {
    a.x * a.x + a.y * a.y + a.z * a.z
}

/// Fixed-point length: the rounded-down square root of `raw_sq`.
pub open spec fn len3(a: V3) -> int {
    sqrt_floor(raw_sq(a) as nat) as int
}

/// The normalized vector: each component divided by the fixed-point length.
pub open spec fn unit3(a: V3) -> V3 {
    v3_div(a, len3(a))
}

/// Fixed-point cross product, each component rounded once.
pub open spec fn cross3(a: V3, b: V3) -> V3 {
    V3 {
        x: tdiv(a.y * b.z - a.z * b.y, SCALE as int),
        y: -tdiv(a.x * b.z - a.z * b.x, SCALE as int),
        z: tdiv(a.x * b.y - a.y * b.x, SCALE as int),
    }
}

pub open spec fn in_i64(v: int) -> bool {
    i64::MIN <= v <= i64::MAX
}

pub open spec fn fits3(a: V3) -> bool {
    in_i64(a.x) && in_i64(a.y) && in_i64(a.z)
}

pub open spec fn bounded3(a: V3, m: int) -> bool {
    abs(a.x) <= m && abs(a.y) <= m && abs(a.z) <= m
}

/// A ray fit for an intersection query: origin and direction within the
/// machine bounds, and a direction that is not degenerately short.
pub open spec fn ray_wf(r: RayModel) -> bool {
    &&& bounded3(r.origin, ORIGIN_MAX as int)
    &&& bounded3(r.direction, DIR_MAX as int)
    &&& raw_sq(r.direction) >= SCALE
}

/// Decides `ray_wf` at run time: the radiance estimator tests each
/// scattered ray with it, and unverified callers test their own rays.
pub fn ray_in_bounds(r: &Ray) -> (b: bool)
    ensures
        b == ray_wf(r@),
{
    let o = r.origin;
    let d = r.direction;
    if o.x < -ORIGIN_MAX || o.x > ORIGIN_MAX || o.y < -ORIGIN_MAX || o.y > ORIGIN_MAX || o.z
        < -ORIGIN_MAX || o.z > ORIGIN_MAX {
        return false;
    }
    if d.x < -DIR_MAX || d.x > DIR_MAX || d.y < -DIR_MAX || d.y > DIR_MAX || d.z < -DIR_MAX || d.z
        > DIR_MAX {
        return false;
    }
    proof {
        lemma_abs_mul_le(d@.x, DIR_MAX as int, d@.x, DIR_MAX as int);
        lemma_abs_mul_le(d@.y, DIR_MAX as int, d@.y, DIR_MAX as int);
        lemma_abs_mul_le(d@.z, DIR_MAX as int, d@.z, DIR_MAX as int);
    }
    let sq: i128 = (d.x as i128) * (d.x as i128) + (d.y as i128) * (d.y as i128) + (d.z as i128)
        * (d.z as i128);
    sq >= SCALE as i128
}

/// A representation of a vector in 3-space.
#[derive(Clone, Copy, Debug, PartialEq, Eq, Structural)]
pub struct Vec3 {
    pub x: i64,
    pub y: i64,
    pub z: i64,
}

impl View for Vec3 {
    type V = V3;

    open spec fn view(&self) -> V3 {
        V3 { x: self.x as int, y: self.y as int, z: self.z as int }
    }
}

/// A representation of a ray.
#[derive(Clone, Copy, Debug)]
pub struct Ray {
    pub origin: Vec3,
    pub direction: Vec3,
}

impl View for Ray {
    type V = RayModel;

    open spec fn view(&self) -> RayModel {
        RayModel { origin: self.origin@, direction: self.direction@ }
    }
}

impl Ray {
    /// Creates a new Ray with the given origin and direction.
    pub fn new(origin: Vec3, direction: Vec3) -> (r: Self)
        ensures
            r@ == (RayModel { origin: origin@, direction: direction@ }),
    {
        Ray { origin, direction }
    }

    /// Returns the origin of the Ray.
    pub fn origin(&self) -> (r: Vec3)
        ensures
            r@ == self@.origin,
    {
        self.origin
    }

    /// Returns the direction of the Ray.
    pub fn direction(&self) -> (r: Vec3)
        ensures
            r@ == self@.direction,
    {
        self.direction
    }

    /// Returns the point at the specified parameter.
    ///
    /// Implements the function `p(t) = A + t*B`, where `A` is the origin,
    /// `B` is the direction, and `t` is the specified parameter.
    pub fn point_at_parameter(&self, t: i64) -> (r: Vec3)
        requires
            fits3(v3_scale(self@.direction, t as int)),
            fits3(point_at3(self@, t as int)),
        ensures
            r@ == point_at3(self@, t as int),
    {
        self.origin.add(self.direction.scale(t))
    }
}

/// Where a ray is after parameter `t`: `origin + t * direction`.
pub open spec fn point_at3(r: RayModel, t: int) -> V3 {
    v3_add(r.origin, v3_scale(r.direction, t))
}

impl Vec3 {
    /// Creates a new Vec3 with the given x, y, and z coords.
    pub fn new(x: i64, y: i64, z: i64) -> (r: Self)
        ensures
            r@ == (V3 { x: x as int, y: y as int, z: z as int }),
    {
        Vec3 { x, y, z }
    }

    pub fn one() -> (r: Self)
        ensures
            r@ == v3_one(),
    {
        Vec3::new(SCALE, SCALE, SCALE)
    }

    pub fn zero() -> (r: Self)
        ensures
            r@ == v3_zero(),
    {
        Vec3::new(0, 0, 0)
    }

    /// Gets the `r` component of the vector, as an RGB color.
    pub fn r(&self) -> (c: i64)
        ensures
            c == self@.x,
    {
        self.x
    }

    /// Gets the `g` component of the vector, as an RGB color.
    pub fn g(&self) -> (c: i64)
        ensures
            c == self@.y,
    {
        self.y
    }

    /// Gets the `b` component of the vector, as an RGB color.
    pub fn b(&self) -> (c: i64)
        ensures
            c == self@.z,
    {
        self.z
    }

    pub fn add(self, other: Vec3) -> (r: Vec3)
        requires
            fits3(v3_add(self@, other@)),
        ensures
            r@ == v3_add(self@, other@),
    {
        Vec3::new(self.x + other.x, self.y + other.y, self.z + other.z)
    }

    pub fn sub(self, other: Vec3) -> (r: Vec3)
        requires
            fits3(v3_sub(self@, other@)),
        ensures
            r@ == v3_sub(self@, other@),
    {
        Vec3::new(self.x - other.x, self.y - other.y, self.z - other.z)
    }

    pub fn neg(self) -> (r: Vec3)
        requires
            fits3(v3_neg(self@)),
        ensures
            r@ == v3_neg(self@),
    {
        Vec3::new(-self.x, -self.y, -self.z)
    }

    /// Component-wise fixed-point product.
    pub fn mul(self, other: Vec3) -> (r: Vec3)
        requires
            fits3(v3_mul(self@, other@)),
        ensures
            r@ == v3_mul(self@, other@),
    {
        Vec3::new(fx_mul(self.x, other.x), fx_mul(self.y, other.y), fx_mul(self.z, other.z))
    }

    /// Fixed-point scaling by a scalar.
    pub fn scale(self, s: i64) -> (r: Vec3)
        requires
            fits3(v3_scale(self@, s as int)),
        ensures
            r@ == v3_scale(self@, s as int),
    {
        Vec3::new(fx_mul(self.x, s), fx_mul(self.y, s), fx_mul(self.z, s))
    }

    /// Fixed-point division by a positive scalar.
    pub fn div(self, s: i64) -> (r: Vec3)
        requires
            s > 0,
            fits3(v3_div(self@, s as int)),
        ensures
            r@ == v3_div(self@, s as int),
    {
        Vec3::new(fx_div(self.x, s), fx_div(self.y, s), fx_div(self.z, s))
    }

    /// Returns the dot product of this and another vector.
    pub fn dot(&self, other: &Vec3) -> (r: i64)
        requires
            bounded3(self@, VEC_ABS_MAX as int),
            bounded3(other@, VEC_ABS_MAX as int),
            in_i64(dot3(self@, other@)),
        ensures
            r == dot3(self@, other@),
    {
        proof {
            lemma_raw_products_fit(self@, other@);
        }
        let p: i128 = (self.x as i128) * (other.x as i128) + (self.y as i128) * (other.y as i128)
            + (self.z as i128) * (other.z as i128);
        div_trunc(p, SCALE as i128) as i64
    }

    /// Returns the sum of each component squared, in fixed point.
    pub fn squared_length(&self) -> (r: i64)
        requires
            bounded3(self@, VEC_ABS_MAX as int),
            in_i64(dot3(self@, self@)),
        ensures
            r == dot3(self@, self@),
            r >= 0,
    {
        proof {
            lemma_raw_sq_nonneg(self@);
            lemma_tdiv_bound(raw_sq(self@), SCALE as int, abs(raw_sq(self@)) as int);
        }
        self.dot(self)
    }

    /// Returns the length (magnitude) of the vector.
    pub fn length(&self) -> (r: i64)
        requires
            bounded3(self@, VEC_ABS_MAX as int),
        ensures
            r == len3(self@),
            r >= 0,
    {
        proof {
            lemma_raw_products_fit(self@, self@);
            lemma_raw_sq_nonneg(self@);
        }
        let p: i128 = (self.x as i128) * (self.x as i128) + (self.y as i128) * (self.y as i128)
            + (self.z as i128) * (self.z as i128);
        let n: u128 = p as u128;
        let r = isqrt(n);
        proof {
            if r > i64::MAX {
                assert(r * r > 0x7fff_ffff_ffff_ffff * 0x7fff_ffff_ffff_ffffu128) by (nonlinear_arith)
                    requires r > 0x7fff_ffff_ffff_ffffu128;
                assert(n <= 3 * ((VEC_ABS_MAX as int) * (VEC_ABS_MAX as int)));
                assert(3 * ((VEC_ABS_MAX as int) * (VEC_ABS_MAX as int))
                    < 0x7fff_ffff_ffff_ffff * 0x7fff_ffff_ffff_ffff) by (nonlinear_arith);
            }
        }
        r as i64
    }

    /// Returns a unit vector with the same direction as this one.
    pub fn unit_vector(&self) -> (r: Self)
        requires
            bounded3(self@, VEC_ABS_MAX as int),
            raw_sq(self@) >= 1,
        ensures
            r@ == unit3(self@),
            bounded3(r@, SCALE as int),
            raw_sq(self@) >= SCALE ==> abs(dot3(r@, r@) - SCALE) <= 0x40000,
            raw_sq(self@) >= SCALE * SCALE ==> abs(dot3(r@, r@) - SCALE) <= 16,
    {
        proof {
            lemma_unit3_bounded(self@);
            if raw_sq(self@) >= SCALE {
                lemma_unit3_near_unit(self@);
            }
        }
        let length = self.length();
        self.div(length)
    }

    /// Returns the cross product of this and another vector.
    pub fn cross(&self, other: &Vec3) -> (r: Vec3)
        requires
            bounded3(self@, VEC_ABS_MAX as int),
            bounded3(other@, VEC_ABS_MAX as int),
            fits3(cross3(self@, other@)),
        ensures
            r@ == cross3(self@, other@),
    {
        proof {
            lemma_raw_products_fit(self@, other@);
            lemma_raw_products_fit(other@, self@);
        }
        let cx = div_trunc(
            (self.y as i128) * (other.z as i128) - (self.z as i128) * (other.y as i128),
            SCALE as i128,
        );
        let cy = div_trunc(
            (self.x as i128) * (other.z as i128) - (self.z as i128) * (other.x as i128),
            SCALE as i128,
        );
        let cz = div_trunc(
            (self.x as i128) * (other.y as i128) - (self.y as i128) * (other.x as i128),
            SCALE as i128,
        );
        Vec3::new(cx as i64, (-cy) as i64, cz as i64)
    }
}

/// Raw component products of two `VEC_ABS_MAX`-bounded vectors fit in `i128`.
proof fn lemma_raw_products_fit(a: V3, b: V3)
    requires
        bounded3(a, VEC_ABS_MAX as int),
        bounded3(b, VEC_ABS_MAX as int),
    ensures
        abs(a.x * b.x) <= (VEC_ABS_MAX as int) * (VEC_ABS_MAX as int),
        abs(a.y * b.y) <= (VEC_ABS_MAX as int) * (VEC_ABS_MAX as int),
        abs(a.z * b.z) <= (VEC_ABS_MAX as int) * (VEC_ABS_MAX as int),
        abs(a.y * b.z) <= (VEC_ABS_MAX as int) * (VEC_ABS_MAX as int),
        abs(a.z * b.y) <= (VEC_ABS_MAX as int) * (VEC_ABS_MAX as int),
        abs(a.x * b.z) <= (VEC_ABS_MAX as int) * (VEC_ABS_MAX as int),
        abs(a.x * b.y) <= (VEC_ABS_MAX as int) * (VEC_ABS_MAX as int),
        abs(a.z * b.x) <= (VEC_ABS_MAX as int) * (VEC_ABS_MAX as int),
        abs(a.y * b.x) <= (VEC_ABS_MAX as int) * (VEC_ABS_MAX as int),
{
    let m = VEC_ABS_MAX as int;
    lemma_abs_mul_le(a.x, m, b.x, m);
    lemma_abs_mul_le(a.y, m, b.y, m);
    lemma_abs_mul_le(a.z, m, b.z, m);
    lemma_abs_mul_le(a.y, m, b.z, m);
    lemma_abs_mul_le(a.z, m, b.y, m);
    lemma_abs_mul_le(a.x, m, b.z, m);
    lemma_abs_mul_le(a.x, m, b.y, m);
    lemma_abs_mul_le(a.z, m, b.x, m);
    lemma_abs_mul_le(a.y, m, b.x, m);
}

/// Bounds on two factors bound their product's magnitude.
pub proof fn lemma_abs_mul_le(u: int, um: int, v: int, vm: int)
    requires
        abs(u) <= um,
        abs(v) <= vm,
    ensures
        abs(u * v) <= um * vm,
{
    assert(abs(u * v) <= um * vm) by (nonlinear_arith)
        requires -um <= u <= um && -vm <= v <= vm && um >= 0 && vm >= 0;
}

pub proof fn lemma_raw_sq_nonneg(a: V3)
    ensures
        raw_sq(a) >= 0,
        a.x * a.x >= 0,
        a.y * a.y >= 0,
        a.z * a.z >= 0,
        dot3(a, a) >= 0,
{
    assert(a.x * a.x >= 0 && a.y * a.y >= 0 && a.z * a.z >= 0) by (nonlinear_arith);
    vstd::arithmetic::div_mod::lemma_div_pos_is_pos(raw_sq(a), SCALE as int);
}

/// The fixed-point length dominates the magnitude of each component.
pub proof fn lemma_len3_dominates(a: V3)
    ensures
        len3(a) >= abs(a.x),
        len3(a) >= abs(a.y),
        len3(a) >= abs(a.z),
        len3(a) >= 0,
        raw_sq(a) >= 1 ==> len3(a) >= 1,
{
    lemma_raw_sq_nonneg(a);
    let n = raw_sq(a) as nat;
    assert(a.x * a.x <= n) by (nonlinear_arith)
        requires a.y * a.y >= 0 && a.z * a.z >= 0 && n == a.x * a.x + a.y * a.y + a.z * a.z;
    assert(a.y * a.y <= n) by (nonlinear_arith)
        requires a.x * a.x >= 0 && a.z * a.z >= 0 && n == a.x * a.x + a.y * a.y + a.z * a.z;
    assert(a.z * a.z <= n) by (nonlinear_arith)
        requires a.x * a.x >= 0 && a.y * a.y >= 0 && n == a.x * a.x + a.y * a.y + a.z * a.z;
    lemma_sqrt_floor_dominates(n, a.x);
    lemma_sqrt_floor_dominates(n, a.y);
    lemma_sqrt_floor_dominates(n, a.z);
    if raw_sq(a) >= 1 && len3(a) == 0 {
        lemma_sqrt_floor(n);
    }
}

/// A bound on all components bounds the fixed-point length.
pub proof fn lemma_len3_upper(a: V3, m: int)
    requires
        bounded3(a, m),
    ensures
        len3(a) <= 2 * m,
{
    lemma_raw_sq_nonneg(a);
    let n = raw_sq(a) as nat;
    lemma_sqrt_floor(n);
    let s = sqrt_floor(n);
    assert(n <= 3 * (m * m)) by (nonlinear_arith)
        requires -m <= a.x <= m && -m <= a.y <= m && -m <= a.z <= m
            && n == a.x * a.x + a.y * a.y + a.z * a.z;
    if s > 2 * m {
        assert(s * s > 3 * (m * m)) by (nonlinear_arith)
            requires s > 2 * m && m >= 0;
    }
}

/// A normalized vector's components never exceed one in fixed point.
pub proof fn lemma_unit3_bounded(a: V3)
    requires
        raw_sq(a) >= 1,
    ensures
        bounded3(unit3(a), SCALE as int),
        fits3(unit3(a)),
        len3(a) >= 1,
{
    lemma_len3_dominates(a);
    let l = len3(a);
    lemma_fdiv_within_unit(a.x, l);
    lemma_fdiv_within_unit(a.y, l);
    lemma_fdiv_within_unit(a.z, l);
}

/// Dividing a component by a length that dominates it stays within one.
proof fn lemma_fdiv_within_unit(c: int, l: int)
    requires
        l >= 1,
        abs(c) <= l,
    ensures
        abs(fdiv(c, l)) <= SCALE as int,
{
    assert(abs(c * SCALE) <= l * SCALE) by (nonlinear_arith)
        requires -l <= c <= l && SCALE > 0;
    lemma_tdiv_bound(c * SCALE, l, l * (SCALE as int));
    lemma_div_multiples_vanish(SCALE as int, l);
}

/// Normalization lands within one part in 2^14 of unit length for any
/// direction a query ray may carry, and within a few raw units once the
/// direction is at least one unit long. The error comes from the rounded
/// square root and the three rounded component divisions.
pub proof fn lemma_unit3_near_unit(v: V3)
    requires
        raw_sq(v) >= SCALE,
    ensures
        abs(dot3(unit3(v), unit3(v)) - SCALE) <= 0x40000,
        raw_sq(v) >= SCALE * SCALE ==> abs(dot3(unit3(v), unit3(v)) - SCALE) <= 16,
{
    lemma_len3_dominates(v);
    lemma_len3_lower_scale(v);
    lemma_raw_sq_nonneg(v);
    let l = len3(v);
    let u = unit3(v);
    let s = SCALE as int;
    // the remainders of the three component divisions
    lemma_tdiv_remainder(v.x * s, l);
    lemma_tdiv_remainder(v.y * s, l);
    lemma_tdiv_remainder(v.z * s, l);
    let fx = v.x * s - l * u.x;
    let fy = v.y * s - l * u.y;
    let fz = v.z * s - l * u.z;
    // square each component's defining equation
    assert((l * l) * (u.x * u.x) == (s * s) * (v.x * v.x) - 2 * s * (v.x * fx) + fx * fx)
        by (nonlinear_arith)
        requires l * u.x == v.x * s - fx && s == 0x1_0000_0000;
    assert((l * l) * (u.y * u.y) == (s * s) * (v.y * v.y) - 2 * s * (v.y * fy) + fy * fy)
        by (nonlinear_arith)
        requires l * u.y == v.y * s - fy && s == 0x1_0000_0000;
    assert((l * l) * (u.z * u.z) == (s * s) * (v.z * v.z) - 2 * s * (v.z * fz) + fz * fz)
        by (nonlinear_arith)
        requires l * u.z == v.z * s - fz && s == 0x1_0000_0000;
    let cross_terms = v.x * fx + v.y * fy + v.z * fz;
    let sq_terms = fx * fx + fy * fy + fz * fz;
    // distribute the squared scalars over the component sums
    assert((l * l) * raw_sq(u) == (l * l) * (u.x * u.x) + (l * l) * (u.y * u.y) + (l * l) * (u.z
        * u.z)) by (nonlinear_arith)
        requires raw_sq(u) == u.x * u.x + u.y * u.y + u.z * u.z;
    assert((s * s) * raw_sq(v) == (s * s) * (v.x * v.x) + (s * s) * (v.y * v.y) + (s * s) * (v.z
        * v.z)) by (nonlinear_arith)
        requires raw_sq(v) == v.x * v.x + v.y * v.y + v.z * v.z;
    assert(2 * s * cross_terms == 2 * s * (v.x * fx) + 2 * s * (v.y * fy) + 2 * s * (v.z * fz))
        by (nonlinear_arith)
        requires cross_terms == v.x * fx + v.y * fy + v.z * fz;
    assert((l * l) * raw_sq(u) == (s * s) * raw_sq(v) - 2 * s * cross_terms + sq_terms);
    // the length brackets the squared magnitude
    lemma_sqrt_floor(raw_sq(v) as nat);
    let rho = raw_sq(v) - l * l;
    assert(0 <= rho <= 2 * l) by (nonlinear_arith)
        requires l * l <= raw_sq(v) && raw_sq(v) < (l + 1) * (l + 1) && rho == raw_sq(v) - l * l;
    // bound every error term
    lemma_abs_mul_le(v.x, l, fx, l - 1);
    lemma_abs_mul_le(v.y, l, fy, l - 1);
    lemma_abs_mul_le(v.z, l, fz, l - 1);
    lemma_abs_mul_le(fx, l - 1, fx, l - 1);
    lemma_abs_mul_le(fy, l - 1, fy, l - 1);
    lemma_abs_mul_le(fz, l - 1, fz, l - 1);
    assert(l * (l - 1) <= l * l && (l - 1) * (l - 1) <= l * l) by (nonlinear_arith)
        requires l >= 1;
    assert(abs(cross_terms) <= 3 * (l * l));
    assert(abs(sq_terms) <= 3 * (l * l));
    // assemble the gap between the normalized square and one
    let gap = raw_sq(u) - s * s;
    assert((l * l) * gap == (l * l) * raw_sq(u) - (s * s) * (l * l)) by (nonlinear_arith)
        requires gap == raw_sq(u) - s * s;
    assert((s * s) * raw_sq(v) == (s * s) * (l * l) + (s * s) * rho) by (nonlinear_arith)
        requires raw_sq(v) == l * l + rho;
    assert((l * l) * gap == (s * s) * rho - 2 * s * cross_terms + sq_terms);
    assert(abs((l * l) * gap) <= (2 * l) * (s * s) + (6 * s + 3) * (l * l)) by (nonlinear_arith)
        requires (l * l) * gap == (s * s) * rho - 2 * s * cross_terms + sq_terms && 0 <= rho
            <= 2 * l && abs(cross_terms) <= 3 * (l * l) && abs(sq_terms) <= 3 * (l * l) && l >= 1
            && s == 0x1_0000_0000;
    // cancel one factor of the length
    assert(l * abs(gap) <= 2 * (s * s) + (6 * s + 3) * l) by (nonlinear_arith)
        requires abs((l * l) * gap) <= (2 * l) * (s * s) + (6 * s + 3) * (l * l) && l >= 1
            && s == 0x1_0000_0000;
    // step down to the rounded dot product
    lemma_tdiv_remainder(raw_sq(u), s);
    let e = raw_sq(u) - s * dot3(u, u);
    assert(s * abs(dot3(u, u) - s) <= abs(gap) + abs(e)) by (nonlinear_arith)
        requires gap == raw_sq(u) - s * s && e == raw_sq(u) - s * dot3(u, u) && s > 0;
    // the general window: the length is at least 2^16
    assert(abs(gap) <= 131079 * s) by (nonlinear_arith)
        requires l * abs(gap) <= 2 * (s * s) + (6 * s + 3) * l && l >= 0x1_0000
            && s == 0x1_0000_0000;
    assert(abs(dot3(u, u) - s) <= 0x40000) by (nonlinear_arith)
        requires s * abs(dot3(u, u) - s) <= 131079 * s + (s - 1) && s == 0x1_0000_0000;
    // the tight window: the direction is at least one unit long
    if raw_sq(v) >= s * s {
        assert(l >= s) by (nonlinear_arith)
            requires raw_sq(v) >= s * s && raw_sq(v) < (l + 1) * (l + 1) && l >= 0 && s > 0;
        assert(abs(gap) <= 8 * s + 3) by (nonlinear_arith)
            requires l * abs(gap) <= 2 * (s * s) + (6 * s + 3) * l && l >= s && s > 0;
        assert(abs(dot3(u, u) - s) <= 16) by (nonlinear_arith)
            requires s * abs(dot3(u, u) - s) <= (8 * s + 3) + (s - 1) && s == 0x1_0000_0000;
    }
}

/// A direction at least as long as `sqrt(SCALE)` raw units (one part in
/// 2^16 of a unit) has a usable fixed-point length.
pub proof fn lemma_len3_lower_scale(a: V3)
    requires
        raw_sq(a) >= SCALE,
    ensures
        len3(a) >= 0x1_0000,
{
    lemma_raw_sq_nonneg(a);
    let n = raw_sq(a) as nat;
    lemma_sqrt_floor(n);
    let s = sqrt_floor(n);
    if s < 0x1_0000 {
        assert((s + 1) * (s + 1) <= 0x1_0000 * 0x1_0000) by (nonlinear_arith)
            requires s + 1 <= 0x1_0000nat;
    }
}

/// The dot product with a near-unit vector is bounded by six lengths.
pub proof fn lemma_dot_normal_bound(d: V3, n: V3)
    requires
        bounded3(n, 2 * SCALE),
    ensures
        abs(dot3(d, n)) <= 6 * len3(d),
{
    lemma_len3_dominates(d);
    let l = len3(d);
    lemma_abs_mul_le(d.x, l, n.x, 2 * SCALE as int);
    lemma_abs_mul_le(d.y, l, n.y, 2 * SCALE as int);
    lemma_abs_mul_le(d.z, l, n.z, 2 * SCALE as int);
    assert(3 * (l * (2 * SCALE)) == (6 * l) * SCALE) by (nonlinear_arith);
    lemma_tdiv_bound(d.x * n.x + d.y * n.y + d.z * n.z, SCALE as int, (6 * l) * SCALE);
    lemma_div_multiples_vanish(6 * l, SCALE as int);
}

/// Dividing by the length keeps a `c * len`-bounded scalar within `c`.
pub proof fn lemma_fdiv_bound_by_len(x: int, len: int, c: int)
    requires
        len >= 1,
        c >= 0,
        abs(x) <= c * len,
    ensures
        abs(fdiv(x, len)) <= c * SCALE,
{
    assert(abs(x * SCALE) <= (c * len) * SCALE) by (nonlinear_arith)
        requires abs(x) <= c * len && SCALE > 0 && abs(x * SCALE) == abs(x) * (SCALE as int);
    assert(abs(x * SCALE) == abs(x) * (SCALE as int)) by (nonlinear_arith);
    lemma_tdiv_bound(x * SCALE, len, (c * len) * SCALE);
    assert((c * len) * SCALE == len * (c * SCALE)) by (nonlinear_arith);
    lemma_div_multiples_vanish(c * SCALE, len);
}

/// Component bounds in whole fixed-point units carry through `v3_scale`.
pub proof fn lemma_scale3_scaled(a: V3, p: int, s: int, q: int)
    requires
        bounded3(a, p * SCALE),
        abs(s) <= q * SCALE,
        0 <= p,
        0 <= q,
    ensures
        bounded3(v3_scale(a, s), (p * q) * SCALE),
{
    crate::fixed::lemma_fmul_scaled(a.x, p, s, q);
    crate::fixed::lemma_fmul_scaled(a.y, p, s, q);
    crate::fixed::lemma_fmul_scaled(a.z, p, s, q);
}

/// Component bounds in whole fixed-point units carry through `cross3`.
pub proof fn lemma_cross3_scaled(a: V3, p: int, b: V3, q: int)
    requires
        bounded3(a, p * SCALE),
        bounded3(b, q * SCALE),
        0 <= p,
        0 <= q,
    ensures
        bounded3(cross3(a, b), (2 * (p * q)) * SCALE),
{
    lemma_abs_mul_le(a.y, p * SCALE, b.z, q * SCALE);
    lemma_abs_mul_le(a.z, p * SCALE, b.y, q * SCALE);
    lemma_abs_mul_le(a.x, p * SCALE, b.z, q * SCALE);
    lemma_abs_mul_le(a.z, p * SCALE, b.x, q * SCALE);
    lemma_abs_mul_le(a.x, p * SCALE, b.y, q * SCALE);
    lemma_abs_mul_le(a.y, p * SCALE, b.x, q * SCALE);
    assert((p * SCALE) * (q * SCALE) == ((p * q) * SCALE) * SCALE) by (nonlinear_arith);
    lemma_tdiv_bound(a.y * b.z - a.z * b.y, SCALE as int, ((2 * (p * q)) * SCALE) * SCALE);
    lemma_tdiv_bound(a.x * b.z - a.z * b.x, SCALE as int, ((2 * (p * q)) * SCALE) * SCALE);
    lemma_tdiv_bound(a.x * b.y - a.y * b.x, SCALE as int, ((2 * (p * q)) * SCALE) * SCALE);
    assert(((p * q) * SCALE) * SCALE + ((p * q) * SCALE) * SCALE == ((2 * (p * q)) * SCALE)
        * SCALE) by (nonlinear_arith);
    crate::fixed::lemma_tdiv_mult_exact((2 * (p * q)) * SCALE, SCALE as int);
}

/// A cross product is orthogonal to both of its arguments to within a few
/// raw units: the scalar triple product vanishes exactly over the integers,
/// so only the three per-component roundings remain.
#[verifier::rlimit(100)]
pub proof fn lemma_cross3_orthogonal(a: V3, b: V3)
    requires
        bounded3(a, SCALE as int),
        bounded3(b, SCALE as int),
    ensures
        abs(dot3(a, cross3(a, b))) <= 3,
        abs(dot3(b, cross3(a, b))) <= 3,
{
    let s = SCALE as int;
    let c = cross3(a, b);
    let tx = a.y * b.z - a.z * b.y;
    let ty = a.x * b.z - a.z * b.x;
    let tz = a.x * b.y - a.y * b.x;
    lemma_tdiv_remainder(tx, s);
    lemma_tdiv_remainder(ty, s);
    lemma_tdiv_remainder(tz, s);
    let rx = tx - s * c.x;
    let ry = ty - s * (-c.y);
    let rz = tz - s * c.z;
    // the triple products vanish exactly
    assert(a.x * tx - a.y * ty + a.z * tz == 0) by (nonlinear_arith)
        requires tx == a.y * b.z - a.z * b.y && ty == a.x * b.z - a.z * b.x && tz == a.x * b.y
            - a.y * b.x;
    assert(b.x * tx - b.y * ty + b.z * tz == 0) by (nonlinear_arith)
        requires tx == a.y * b.z - a.z * b.y && ty == a.x * b.z - a.z * b.x && tz == a.x * b.y
            - a.y * b.x;
    // only the roundings remain in the rescaled dot products
    let raw_ac = a.x * c.x + a.y * c.y + a.z * c.z;
    let raw_bc = b.x * c.x + b.y * c.y + b.z * c.z;
    assert(s * c.y == ry - ty) by (nonlinear_arith)
        requires s * (-c.y) == ty - ry;
    assert(a.x * (s * c.x) == a.x * tx - a.x * rx) by (nonlinear_arith)
        requires s * c.x == tx - rx;
    assert(a.y * (s * c.y) == a.y * ry - a.y * ty) by (nonlinear_arith)
        requires s * c.y == ry - ty;
    assert(a.z * (s * c.z) == a.z * tz - a.z * rz) by (nonlinear_arith)
        requires s * c.z == tz - rz;
    assert(b.x * (s * c.x) == b.x * tx - b.x * rx) by (nonlinear_arith)
        requires s * c.x == tx - rx;
    assert(b.y * (s * c.y) == b.y * ry - b.y * ty) by (nonlinear_arith)
        requires s * c.y == ry - ty;
    assert(b.z * (s * c.z) == b.z * tz - b.z * rz) by (nonlinear_arith)
        requires s * c.z == tz - rz;
    assert(s * raw_ac == s * (a.x * c.x) + s * (a.y * c.y) + s * (a.z * c.z)) by (nonlinear_arith)
        requires raw_ac == a.x * c.x + a.y * c.y + a.z * c.z;
    assert(s * (a.x * c.x) == a.x * (s * c.x)) by (nonlinear_arith);
    assert(s * (a.y * c.y) == a.y * (s * c.y)) by (nonlinear_arith);
    assert(s * (a.z * c.z) == a.z * (s * c.z)) by (nonlinear_arith);
    assert(s * raw_bc == s * (b.x * c.x) + s * (b.y * c.y) + s * (b.z * c.z)) by (nonlinear_arith)
        requires raw_bc == b.x * c.x + b.y * c.y + b.z * c.z;
    assert(s * (b.x * c.x) == b.x * (s * c.x)) by (nonlinear_arith);
    assert(s * (b.y * c.y) == b.y * (s * c.y)) by (nonlinear_arith);
    assert(s * (b.z * c.z) == b.z * (s * c.z)) by (nonlinear_arith);
    assert(s * raw_ac == -(a.x * rx) + (a.y * ry) - (a.z * rz));
    assert(s * raw_bc == -(b.x * rx) + (b.y * ry) - (b.z * rz));
    lemma_abs_mul_le(a.x, s, rx, s - 1);
    lemma_abs_mul_le(a.y, s, ry, s - 1);
    lemma_abs_mul_le(a.z, s, rz, s - 1);
    lemma_abs_mul_le(b.x, s, rx, s - 1);
    lemma_abs_mul_le(b.y, s, ry, s - 1);
    lemma_abs_mul_le(b.z, s, rz, s - 1);
    assert(abs(s * raw_ac) <= 3 * (s * (s - 1))) by (nonlinear_arith)
        requires s * raw_ac == -(a.x * rx) + (a.y * ry) - (a.z * rz) && abs(a.x * rx) <= s * (s
            - 1) && abs(a.y * ry) <= s * (s - 1) && abs(a.z * rz) <= s * (s - 1);
    assert(abs(s * raw_bc) <= 3 * (s * (s - 1))) by (nonlinear_arith)
        requires s * raw_bc == -(b.x * rx) + (b.y * ry) - (b.z * rz) && abs(b.x * rx) <= s * (s
            - 1) && abs(b.y * ry) <= s * (s - 1) && abs(b.z * rz) <= s * (s - 1);
    assert(abs(raw_ac) <= 3 * s) by (nonlinear_arith)
        requires abs(s * raw_ac) <= 3 * (s * (s - 1)) && s > 0;
    assert(abs(raw_bc) <= 3 * s) by (nonlinear_arith)
        requires abs(s * raw_bc) <= 3 * (s * (s - 1)) && s > 0;
    lemma_tdiv_bound(raw_ac, s, 3 * s);
    lemma_tdiv_bound(raw_bc, s, 3 * s);
    assert((3 * s) / s == 3) by {
        vstd::arithmetic::div_mod::lemma_div_multiples_vanish(3, s);
    }
}

/// The dot product of bounded vectors is bounded by three rescaled products.
pub proof fn lemma_dot3_bound(a: V3, b: V3, am: int, bm: int)
    requires
        bounded3(a, am),
        bounded3(b, bm),
    ensures
        abs(dot3(a, b)) <= tdiv(3 * (am * bm), SCALE as int),
        tdiv(3 * (am * bm), SCALE as int) <= 3 * (am * bm),
{
    let m = am * bm;
    assert(abs(a.x * b.x + a.y * b.y + a.z * b.z) <= 3 * m) by (nonlinear_arith)
        requires -am <= a.x <= am && -am <= a.y <= am && -am <= a.z <= am
            && -bm <= b.x <= bm && -bm <= b.y <= bm && -bm <= b.z <= bm
            && m == am * bm;
    lemma_tdiv_bound(a.x * b.x + a.y * b.y + a.z * b.z, SCALE as int, 3 * m);
}

} // verus!
