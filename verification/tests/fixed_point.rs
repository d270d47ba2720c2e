use raytrace::fixed::{fx_div, fx_mul, fx_sqrt, isqrt};
use raytrace::random::{next_symmetric, next_unit, rng_from_seed};
use raytrace::SCALE;

#[test]
fn multiply_exact_values() {
    // 1.5 * 2 == 3
    assert_eq!(fx_mul(3 * SCALE / 2, 2 * SCALE), 3 * SCALE);
    // 0.5 * 0.5 == 0.25
    assert_eq!(fx_mul(SCALE / 2, SCALE / 2), SCALE / 4);
    // multiplying by one is the identity
    assert_eq!(fx_mul(123456789, SCALE), 123456789);
    assert_eq!(fx_mul(-123456789, SCALE), -123456789);
}

#[test]
fn multiply_rounds_toward_zero() {
    // -7/2^32 * 1/2 is -3.5 raw units: truncation gives -3, not -4
    assert_eq!(fx_mul(-7, SCALE / 2), -3);
    assert_eq!(fx_mul(7, SCALE / 2), 3);
}

#[test]
fn divide_exact_values() {
    assert_eq!(fx_div(SCALE, SCALE), SCALE);
    assert_eq!(fx_div(3 * SCALE, 2 * SCALE), 3 * SCALE / 2);
    // 1/3 rounds down
    assert_eq!(fx_div(SCALE, 3), 6148914691236517205);
    // negative quotients round toward zero
    assert_eq!(fx_div(-SCALE, 3 * SCALE), -1431655765);
}

#[test]
fn square_roots_round_down() {
    assert_eq!(fx_sqrt(4 * SCALE), 2 * SCALE);
    assert_eq!(fx_sqrt(0), 0);
    assert_eq!(fx_sqrt(SCALE), SCALE);
    // sqrt(2) = 1.41421356..., truncated onto the fixed grid
    assert_eq!(fx_sqrt(2 * SCALE), 6074000999);
}

#[test]
fn integer_square_root_brackets() {
    for n in [0u128, 1, 2, 3, 4, 8, 15, 16, 17, 288230376151711743, 1 << 100] {
        let r = isqrt(n);
        assert!(r * r <= n);
        assert!((r + 1) * (r + 1) > n);
    }
}

#[test]
fn unit_draws_stay_in_range() {
    let mut rng = rng_from_seed(7);
    for _ in 0..1000 {
        let u = next_unit(&mut rng);
        assert!(0 <= u && u < SCALE);
        let s = next_symmetric(&mut rng);
        assert!(-SCALE <= s && s < SCALE);
    }
}

#[test]
fn seeded_generator_is_reproducible() {
    let mut a = rng_from_seed(42);
    let mut b = rng_from_seed(42);
    for _ in 0..16 {
        assert_eq!(next_unit(&mut a), next_unit(&mut b));
    }
}
