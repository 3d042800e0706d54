//! Exact-value tests of the fixed-point arithmetic: the saturating
//! operations and the polynomial approximations of exp, the logistic
//! function, and ln behave exactly as their specifications state.

use heart_predictor::fixed::{exp_neg, fx_add, fx_mul, fx_sub, ln_u, sigmoid, FX_MAX, HALF, ONE};

#[test]
fn saturating_arithmetic() {
    assert_eq!(fx_add(ONE, ONE), 2 * ONE);
    assert_eq!(fx_add(FX_MAX, 1), FX_MAX);
    assert_eq!(fx_sub(-FX_MAX, 1), -FX_MAX);
    // 1.5 * 2 = 3 in fixed point
    assert_eq!(fx_mul(3 * ONE / 2, 2 * ONE), 3 * ONE);
    assert_eq!(fx_mul(-ONE, ONE), -ONE);
    assert_eq!(fx_mul(-ONE, -ONE), ONE);
    assert_eq!(fx_mul(FX_MAX, FX_MAX), FX_MAX);
    // rescaling rounds the magnitude toward zero
    assert_eq!(fx_mul(1, 1), 0);
}

#[test]
fn exp_neg_exact_values() {
    // exp(0) = 1 exactly
    assert_eq!(exp_neg(0), ONE as u64);
    // exp(-1): the fractional polynomial at 0 times one E_INV factor
    assert_eq!(exp_neg(ONE as u64), 24109);
    // the polynomial at the very top of the first unit
    assert_eq!(exp_neg(ONE as u64 - 1), 24121);
    // far in the tail the approximation reaches zero
    assert_eq!(exp_neg(40 * ONE as u64), 0);
    // monotone on a few sample points
    assert!(exp_neg(ONE as u64 / 2) > exp_neg(ONE as u64));
    assert!(exp_neg(2 * ONE as u64) > exp_neg(3 * ONE as u64));
}

#[test]
fn exp_neg_monotone_across_unit_boundaries() {
    // the value at the end of each unit never falls below the value at the
    // start of the next one
    for k in 0..36u64 {
        let hi = exp_neg(k * ONE as u64 + (ONE as u64 - 1));
        let lo = exp_neg((k + 1) * ONE as u64);
        assert!(hi >= lo);
    }
    // dense scan of the first two units
    let mut prev = exp_neg(0);
    for t in 1..(2 * ONE as u64) {
        let v = exp_neg(t);
        assert!(v <= prev);
        prev = v;
    }
}

#[test]
fn sigmoid_monotone_across_unit_boundaries() {
    assert!(sigmoid(ONE - 1) <= sigmoid(ONE));
    assert!(sigmoid(-ONE) <= sigmoid(-(ONE - 1)));
    let mut prev = sigmoid(-2 * ONE);
    for z in (-2 * ONE + 1)..=(2 * ONE) {
        let v = sigmoid(z);
        assert!(v >= prev);
        prev = v;
    }
}

#[test]
fn sigmoid_exact_values() {
    // sigmoid(0) = 1/2 exactly
    assert_eq!(sigmoid(0), HALF);
    // sigmoid(1) = 1 / (1 + exp(-1)) = 65536^2 / (65536 + 24109)
    assert_eq!(sigmoid(ONE), 65536i64 * 65536 / (65536 + 24109));
    // the threshold at one half is exact on both sides of zero
    assert!(sigmoid(1) >= HALF);
    assert!(sigmoid(-1) < HALF);
    assert!(sigmoid(ONE) + sigmoid(-ONE) <= ONE);
    assert!(sigmoid(ONE) + sigmoid(-ONE) >= ONE - 2);
}

#[test]
fn ln_exact_values() {
    // ln(1) = 0 exactly
    assert_eq!(ln_u(1), 0);
    // ln(2) and ln(4): pure powers of two take only the k * ln(2) path
    assert_eq!(ln_u(2), 45426);
    assert_eq!(ln_u(4), 2 * 45426);
    assert_eq!(ln_u(1 << 20), 20 * 45426);
    // monotone on a few sample points
    assert!(ln_u(3) > ln_u(2));
    assert!(ln_u(1000) > ln_u(999));
}
