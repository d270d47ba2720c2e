//! Fixed-point scalar arithmetic.
//!
//! A scalar is an `i64` whose raw value `v` stands for the real number
//! `v / SCALE`. Products and quotients are computed in `i128` and rounded
//! toward zero, exactly as `tdiv` specifies, and square roots round down.

use vstd::prelude::*;
use vstd::arithmetic::div_mod::{
    lemma_div_is_ordered, lemma_div_pos_is_pos, lemma_div_multiples_vanish,
    lemma_div_nonincreasing, lemma_fundamental_div_mod,
};
use vstd::math::abs;

verus! {

use crate::SCALE;

/// Quotient of `a` by `b`, rounded toward zero (the rounding Rust's `/` uses).
pub open spec fn tdiv(a: int, b: int) -> int {
    if a >= 0 {
        a / b
    } else {
        -((-a) / b)
    }
}

/// The fixed-point product: `(a * b) / SCALE`, rounded toward zero.
pub open spec fn fmul(a: int, b: int) -> int {
    tdiv(a * b, SCALE as int)
}

/// The fixed-point quotient: `(a * SCALE) / b`, rounded toward zero.
pub open spec fn fdiv(a: int, b: int) -> int {
    tdiv(a * SCALE, b)
}

/// Largest `r` with `r * r <= n`, by the classic digit-pair recursion.
pub open spec fn sqrt_floor(n: nat) -> nat
    decreases n,
{
    if n == 0 {
        0
    } else {
        let h = sqrt_floor(n / 4);
        if (2 * h + 1) * (2 * h + 1) <= n {
            2 * h + 1
        } else {
            2 * h
        }
    }
}

/// The fixed-point square root of a nonnegative scalar `x`:
/// `sqrt(x / SCALE)` in fixed point is `floor(sqrt(x * SCALE))` raw.
pub open spec fn fsqrt(x: int) -> int {
    sqrt_floor((x * SCALE) as nat) as int
}

pub proof fn lemma_tdiv_zero(b: int)
    requires
        b > 0,
    ensures
        tdiv(0, b) == 0,
{
    vstd::arithmetic::div_mod::lemma_div_of0(b);
}

/// Dividing an exact multiple of a positive `b` recovers the factor.
pub proof fn lemma_tdiv_mult_exact(k: int, b: int)
    requires
        b > 0,
    ensures
        tdiv(k * b, b) == k,
{
    if k >= 0 {
        lemma_div_multiples_vanish(k, b);
        assert(k * b == b * k) by (nonlinear_arith);
    } else {
        lemma_div_multiples_vanish(-k, b);
        assert(-(k * b) == b * (-k)) by (nonlinear_arith);
        assert(k * b < 0) by (nonlinear_arith)
            requires k < 0 && b > 0;
    }
}

/// Truncating division never grows the magnitude of the numerator's bound.
pub proof fn lemma_tdiv_bound(a: int, b: int, m: int)
    requires
        b > 0,
        abs(a) <= m,
    ensures
        abs(tdiv(a, b)) <= m / b,
        m / b <= m,
        a >= 0 ==> tdiv(a, b) >= 0,
        a <= 0 ==> tdiv(a, b) <= 0,
{
    lemma_div_pos_is_pos(m, b);
    lemma_div_nonincreasing(m, b);
    if a >= 0 {
        lemma_div_is_ordered(a, m, b);
        lemma_div_pos_is_pos(a, b);
    } else {
        lemma_div_is_ordered(-a, m, b);
        lemma_div_pos_is_pos(-a, b);
    }
}

/// The remainder truncating division leaves behind stays under the divisor.
pub proof fn lemma_tdiv_remainder(a: int, b: int)
    requires
        b > 0,
    ensures
        abs(a - b * tdiv(a, b)) <= b - 1,
{
    if a >= 0 {
        lemma_fundamental_div_mod(a, b);
        vstd::arithmetic::div_mod::lemma_mod_division_less_than_divisor(a, b);
    } else {
        lemma_fundamental_div_mod(-a, b);
        vstd::arithmetic::div_mod::lemma_mod_division_less_than_divisor(-a, b);
        assert(b * (-((-a) / b)) == -(b * ((-a) / b))) by (nonlinear_arith);
    }
}

/// Truncating division by a positive divisor is monotone.
pub proof fn lemma_tdiv_ordered(a1: int, a2: int, b: int)
    requires
        b > 0,
        a1 <= a2,
    ensures
        tdiv(a1, b) <= tdiv(a2, b),
{
    if a1 >= 0 {
        lemma_div_is_ordered(a1, a2, b);
    } else if a2 < 0 {
        lemma_div_is_ordered(-a2, -a1, b);
    } else {
        lemma_div_pos_is_pos(-a1, b);
        lemma_div_pos_is_pos(a2, b);
    }
}

/// A bound on both factors bounds the fixed-point product.
pub proof fn lemma_fmul_bound(a: int, am: int, b: int, bm: int)
    requires
        abs(a) <= am,
        abs(b) <= bm,
    ensures
        abs(fmul(a, b)) <= tdiv(am * bm, SCALE as int),
        tdiv(am * bm, SCALE as int) <= am * bm,
{
    assert(abs(a * b) <= am * bm) by (nonlinear_arith)
        requires -am <= a <= am && -bm <= b <= bm;
    lemma_tdiv_bound(a * b, SCALE as int, am * bm);
    assert(am * bm >= 0) by (nonlinear_arith)
        requires am >= 0 && bm >= 0;
}

/// A fixed-point product of nonnegative factors is nonnegative,
/// and a factor at most `SCALE` cannot grow the other factor.
pub proof fn lemma_fmul_unit_range(a: int, b: int)
    requires
        0 <= a <= SCALE,
        0 <= b,
    ensures
        0 <= fmul(a, b) <= b,
{
    assert(0 <= a * b) by (nonlinear_arith)
        requires 0 <= a && 0 <= b;
    assert(a * b <= SCALE * b) by (nonlinear_arith)
        requires a <= SCALE && 0 <= b;
    lemma_div_pos_is_pos(a * b, SCALE as int);
    lemma_div_is_ordered(a * b, SCALE * b, SCALE as int);
    lemma_div_multiples_vanish(b, SCALE as int);
}

/// Bounds in whole fixed-point units multiply through the product: factors
/// within `p` and `q` units keep the product within `p * q` units.
pub proof fn lemma_fmul_scaled(a: int, p: int, b: int, q: int)
    requires
        abs(a) <= p * SCALE,
        abs(b) <= q * SCALE,
        0 <= p,
        0 <= q,
    ensures
        abs(fmul(a, b)) <= (p * q) * SCALE,
{
    assert(abs(a * b) <= ((p * q) * SCALE) * SCALE) by (nonlinear_arith)
        requires -(p * SCALE) <= a <= p * SCALE && -(q * SCALE) <= b <= q * SCALE && 0 <= p
            && 0 <= q && SCALE > 0;
    lemma_tdiv_bound(a * b, SCALE as int, ((p * q) * SCALE) * SCALE);
    lemma_tdiv_mult_exact((p * q) * SCALE, SCALE as int);
}

/// A fixed-point square is never negative.
pub proof fn lemma_fmul_self_nonneg(a: int)
    ensures
        fmul(a, a) >= 0,
{
    assert(a * a >= 0) by (nonlinear_arith);
    lemma_div_pos_is_pos(a * a, SCALE as int);
}

pub proof fn lemma_sqrt_floor(n: nat)
    ensures
        sqrt_floor(n) * sqrt_floor(n) <= n,
        n < (sqrt_floor(n) + 1) * (sqrt_floor(n) + 1),
    decreases n,
{
    if n == 0 {
        assert(sqrt_floor(n) == 0);
        assert(n < (sqrt_floor(n) + 1) * (sqrt_floor(n) + 1)) by (nonlinear_arith)
            requires n == 0nat && sqrt_floor(n) == 0nat;
    } else {
        let q = n / 4;
        lemma_sqrt_floor(q);
        let h = sqrt_floor(q);
        lemma_fundamental_div_mod(n as int, 4);
        vstd::arithmetic::div_mod::lemma_mod_division_less_than_divisor(n as int, 4);
        assert(4 * q <= n && n < 4 * q + 4);
        assert((2 * h) * (2 * h) <= 4 * q) by (nonlinear_arith)
            requires h * h <= q;
        assert(4 * q + 4 <= (2 * h + 2) * (2 * h + 2)) by (nonlinear_arith)
            requires q < (h + 1) * (h + 1);
        if (2 * h + 1) * (2 * h + 1) <= n {
            assert(sqrt_floor(n) == 2 * h + 1);
            assert((2 * h + 2) * (2 * h + 2) == (sqrt_floor(n) + 1) * (sqrt_floor(n) + 1));
            assert(n < (sqrt_floor(n) + 1) * (sqrt_floor(n) + 1));
        } else {
            assert(sqrt_floor(n) == 2 * h);
            assert((2 * h) * (2 * h) <= n);
            assert((2 * h + 1) * (2 * h + 1) == (sqrt_floor(n) + 1) * (sqrt_floor(n) + 1));
            assert(n < (sqrt_floor(n) + 1) * (sqrt_floor(n) + 1));
        }
    }
}

/// `sqrt_floor` is the only value whose square brackets `n`.
pub proof fn lemma_sqrt_floor_unique(n: nat, r: nat)
    requires
        r * r <= n,
        n < (r + 1) * (r + 1),
    ensures
        r == sqrt_floor(n),
{
    lemma_sqrt_floor(n);
    let s = sqrt_floor(n);
    if r < s {
        assert((r + 1) * (r + 1) <= s * s) by (nonlinear_arith)
            requires r + 1 <= s;
    } else if s < r {
        assert((s + 1) * (s + 1) <= r * r) by (nonlinear_arith)
            requires s + 1 <= r;
    }
}

/// The square root's floor dominates every `x` whose square is below `n`.
pub proof fn lemma_sqrt_floor_dominates(n: nat, x: int)
    requires
        x * x <= n,
    ensures
        abs(x) <= sqrt_floor(n),
{
    lemma_sqrt_floor(n);
    let s = sqrt_floor(n);
    if abs(x) > s {
        assert((s + 1) * (s + 1) <= abs(x) * abs(x)) by (nonlinear_arith)
            requires s + 1 <= abs(x);
        assert(abs(x) * abs(x) == x * x) by (nonlinear_arith);
    }
}

/// Truncating division of `a` by a positive `b`, computed on unsigned magnitudes.
pub fn div_trunc(a: i128, b: i128) -> (q: i128)
    requires
        b > 0,
        a > i128::MIN,
    ensures
        q == tdiv(a as int, b as int),
{
    if a >= 0 {
        let m: u128 = a as u128;
        let d: u128 = b as u128;
        let q: u128 = m / d;
        proof { lemma_div_nonincreasing(m as int, d as int); }
        q as i128
    } else {
        let m: u128 = (-a) as u128;
        let d: u128 = b as u128;
        let q: u128 = m / d;
        proof { lemma_div_nonincreasing(m as int, d as int); }
        -(q as i128)
    }
}

/// Upper bound on arguments of `isqrt`: `2^126`, so the search can start
/// from a bracket whose square still fits in `u128`.
pub const MAX_RADICAND: u128 = 0x4000_0000_0000_0000_0000_0000_0000_0000;

const SQRT_HI: u128 = 0x8000_0000_0000_0000;

/// Integer square root by bisection: the largest `r` with `r * r <= n`.
pub fn isqrt(n: u128) -> (r: u128)
    requires
        n < MAX_RADICAND,
    ensures
        r == sqrt_floor(n as nat),
        r * r <= n < (r + 1) * (r + 1),
{
    let mut lo: u128 = 0;
    let mut hi: u128 = SQRT_HI;
    assert(SQRT_HI * SQRT_HI == MAX_RADICAND) by (nonlinear_arith);
    while lo + 1 < hi
        invariant
            lo < hi <= SQRT_HI,
            lo * lo <= n,
            n < hi * hi,
        decreases hi - lo,
    {
        let mid = lo + (hi - lo) / 2;
        assert(lo < mid < hi);
        assert(mid * mid < MAX_RADICAND) by (nonlinear_arith)
            requires mid < SQRT_HI && SQRT_HI * SQRT_HI == MAX_RADICAND;
        if mid * mid <= n {
            lo = mid;
        } else {
            hi = mid;
        }
    }
    proof {
        lemma_sqrt_floor_unique(n as nat, lo as nat);
    }
    lo
}

/// The fixed-point product, exactly `fmul` of the arguments.
pub fn fx_mul(a: i64, b: i64) -> (r: i64)
    requires
        i64::MIN <= fmul(a as int, b as int) <= i64::MAX,
    ensures
        r == fmul(a as int, b as int),
{
    proof {
        lemma_mul_i64_fits(a as int, b as int);
    }
    let p: i128 = (a as i128) * (b as i128);
    let q = div_trunc(p, SCALE as i128);
    q as i64
}

/// The fixed-point quotient by a positive divisor, exactly `fdiv`.
pub fn fx_div(a: i64, b: i64) -> (r: i64)
    requires
        b > 0,
        i64::MIN <= fdiv(a as int, b as int) <= i64::MAX,
    ensures
        r == fdiv(a as int, b as int),
{
    proof {
        lemma_mul_i64_fits(a as int, SCALE as int);
    }
    let p: i128 = (a as i128) * (SCALE as i128);
    let q = div_trunc(p, b as i128);
    q as i64
}

/// The fixed-point square root of a nonnegative scalar, exactly `fsqrt`.
pub fn fx_sqrt(x: i64) -> (r: i64)
    requires
        x >= 0,
    ensures
        r == fsqrt(x as int),
        r >= 0,
{
    proof {
        assert(0 <= x * SCALE < MAX_RADICAND) by (nonlinear_arith)
            requires 0 <= x < 0x8000_0000_0000_0000 && SCALE == 0x1_0000_0000;
    }
    let n: u128 = (x as u128) * (SCALE as u128);
    let r = isqrt(n);
    proof {
        if r >= 0x1_0000_0000_0000 {
            assert(r * r >= 0x1_0000_0000_0000 * 0x1_0000_0000_0000) by (nonlinear_arith)
                requires r >= 0x1_0000_0000_0000u128;
            assert(n < 0x1_0000_0000_0000 * 0x1_0000_0000_0000) by (nonlinear_arith)
                requires n == x * SCALE && 0 <= x <= i64::MAX && SCALE == 0x1_0000_0000;
        }
    }
    r as i64
}

/// Any product of two `i64` values fits in `i128`.
proof fn lemma_mul_i64_fits(a: int, b: int)
    requires
        i64::MIN <= a <= i64::MAX,
        i64::MIN <= b <= i64::MAX,
    ensures
        -0x4000_0000_0000_0000_0000_0000_0000_0000 <= a * b
            <= 0x4000_0000_0000_0000_0000_0000_0000_0000,
{
    assert(abs(a * b) <= 0x8000_0000_0000_0000 * 0x8000_0000_0000_0000) by (nonlinear_arith)
        requires -0x8000_0000_0000_0000 <= a <= 0x8000_0000_0000_0000
            && -0x8000_0000_0000_0000 <= b <= 0x8000_0000_0000_0000;
}

} // verus!
