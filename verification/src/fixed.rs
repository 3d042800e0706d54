//! Fixed-point arithmetic: the numeric substrate of the classifiers.
//!
//! A fixed-point value `v: i64` stands for the real number `v / ONE`.
//! Addition, subtraction and multiplication saturate at `FX_MAX`, so every
//! operation is total; `exp_neg`, `sigmoid` and `ln_u` compute documented
//! polynomial approximations of the transcendental functions, exactly as
//! their spec mirrors state. The exponential and logistic approximations
//! are proved monotone (`lemma_exp_neg_monotone`, `lemma_sigmoid_monotone`)
//! and the logistic function's one-half threshold is proved to sit exactly
//! at zero (`lemma_sigmoid_threshold`).

use vstd::prelude::*;

verus! {

broadcast use vstd::arithmetic::div_mod::lemma_div_is_ordered,
    vstd::arithmetic::div_mod::lemma_div_nonincreasing,
    vstd::arithmetic::div_mod::lemma_div_is_ordered_by_denominator,
    vstd::arithmetic::div_mod::lemma_div_multiples_vanish_fancy,
    vstd::arithmetic::div_mod::lemma_div_by_multiple,
    vstd::arithmetic::div_mod::lemma_div_decreases,
    vstd::arithmetic::div_mod::lemma_div_pos_is_pos;

/// The fixed-point unit: this many integer steps make the real value 1.
pub const ONE: i64 = 65536;

/// The fixed-point value of one half.
pub const HALF: i64 = 32768;

/// Saturation bound of the fixed-point arithmetic.
pub const FX_MAX: i64 = 4611686018427387904;

/// `exp(-1)` in fixed point, rounded down.
pub const E_INV: i64 = 24109;

/// `ln(2)` in fixed point, rounded down.
pub const LN2: i64 = 45426;

/// `ln(2 * pi)` in fixed point, rounded down.
pub const LN_2PI: i64 = 120451;

/// Largest argument `ln_u` accepts (2^110).
pub const LN_ARG_LIMIT: u128 = 1298074214633706907132624082305024;

/// Clamps a mathematical integer into the saturation range.
pub open spec fn clamp(v: int) -> int {
    if v > FX_MAX {
        FX_MAX as int
    } else if v < -FX_MAX {
        -FX_MAX as int
    } else {
        v
    }
}

/// The absolute value of an integer.
pub open spec fn abs_int(v: int) -> int {
    if v < 0 {
        -v
    } else {
        v
    }
}

/// Saturating fixed-point addition.
pub open spec fn fx_add_spec(a: i64, b: i64) -> i64 {
    clamp(a + b) as i64
}

/// Saturating fixed-point subtraction.
pub open spec fn fx_sub_spec(a: i64, b: i64) -> i64 {
    clamp(a - b) as i64
}

/// Saturating fixed-point multiplication: the product of the magnitudes is
/// rescaled by `ONE` (rounding toward zero), clamped, and given the sign of
/// the exact product.
pub open spec fn fx_mul_spec(a: i64, b: i64) -> i64 {
    let p = abs_int(a as int) * abs_int(b as int) / (ONE as int);
    let m = if p > FX_MAX {
        FX_MAX as int
    } else {
        p
    };
    if (a < 0) != (b < 0) {
        (-m) as i64
    } else {
        m as i64
    }
}

pub fn fx_add(a: i64, b: i64) -> (r: i64)
    ensures
        r == fx_add_spec(a, b),
        -FX_MAX <= r <= FX_MAX,
{
    let wide: i128 = a as i128 + b as i128;
    if wide > FX_MAX as i128 {
        FX_MAX
    } else if wide < -FX_MAX as i128 {
        -FX_MAX
    } else {
        wide as i64
    }
}

pub fn fx_sub(a: i64, b: i64) -> (r: i64)
    ensures
        r == fx_sub_spec(a, b),
        -FX_MAX <= r <= FX_MAX,
{
    let wide: i128 = a as i128 - b as i128;
    if wide > FX_MAX as i128 {
        FX_MAX
    } else if wide < -FX_MAX as i128 {
        -FX_MAX
    } else {
        wide as i64
    }
}

pub fn fx_mul(a: i64, b: i64) -> (r: i64)
    ensures
        r == fx_mul_spec(a, b),
        -FX_MAX <= r <= FX_MAX,
{
    let neg = (a < 0) != (b < 0);
    let aa: u128 = (if a < 0 {
        -(a as i128)
    } else {
        a as i128
    }) as u128;
    let bb: u128 = (if b < 0 {
        -(b as i128)
    } else {
        b as i128
    }) as u128;
    proof {
        assert(aa * bb <= 0x8000000000000000u128 * 0x8000000000000000u128) by (nonlinear_arith)
            requires
                aa <= 0x8000000000000000u128,
                bb <= 0x8000000000000000u128,
        ;
    }
    let p: u128 = (aa * bb) / 65536;
    let m: u128 = if p > FX_MAX as u128 {
        FX_MAX as u128
    } else {
        p
    };
    if neg {
        -(m as i64)
    } else {
        m as i64
    }
}

/// Integer numerator of the degree-6 Taylor polynomial for `exp(-f)` with
/// `f` in `[0, ONE)`: `720 * ONE^6 * (1 - x + x^2/2 - ... + x^6/720)` at
/// `x = f / ONE`, written with the powers of `ONE` folded into the
/// coefficients. A single division by `720 * ONE^5` turns it into a
/// fixed-point value, so the floor is taken exactly once and the value
/// inherits the numerator's monotonicity.
pub open spec fn exp_poly_num(fp: int) -> int {
    57044277010270323067351644241920 - 870426590122533005788446720 * fp
        + 6640827866535438581760 * (fp * fp) - 33776997205278720 * (fp * fp * fp)
        + 128849018880 * (fp * fp * fp * fp) - 393216 * (fp * fp * fp * fp * fp) + (fp * fp * fp
        * fp * fp * fp)
}

/// The degree-6 polynomial approximation of `exp(-f)` for `f` in
/// `[0, ONE)`, in fixed point: nonincreasing in `f`, exactly `ONE` at 0,
/// and at `ONE - 1` still at least `E_INV`, so `exp_neg_spec` never rises.
pub open spec fn exp_poly_spec(fp: int) -> int {
    exp_poly_num(fp) / 870426590122533005788446720
}

/// `m` multiplications by `exp(-1)`, each rescaled by `ONE`.
pub open spec fn exp_chain_spec(r: int, m: nat) -> int
    decreases m,
{
    if m == 0 {
        r
    } else {
        exp_chain_spec(r * (E_INV as int) / (ONE as int), (m - 1) as nat)
    }
}

/// `exp(-t)` in fixed point: the polynomial on the fractional part of `t`,
/// then one `E_INV` factor per whole unit; zero beyond 32 whole units.
pub open spec fn exp_neg_spec(t: u64) -> int {
    let ip = t as int / (ONE as int);
    let fp = t as int % (ONE as int);
    if ip >= 32 {
        0
    } else {
        exp_chain_spec(exp_poly_spec(fp), ip as nat)
    }
}

/// The logistic function in fixed point, via `exp_neg` of the magnitude.
pub open spec fn sigmoid_spec(z: i64) -> int {
    if z >= 0 {
        (ONE as int) * (ONE as int) / (ONE as int + exp_neg_spec(z as u64))
    } else {
        let e = exp_neg_spec((-(z as int)) as u64);
        (ONE as int) * e / (ONE as int + e)
    }
}

/// Multiplying a non-negative value below `ONE` and rescaling never grows
/// the other factor.
proof fn lemma_scale_le(x: int, y: int)
    requires
        0 <= x,
        0 <= y < ONE,
    ensures
        0 <= x * y / (ONE as int) <= x,
{
    assert(0 <= x * y <= x * (ONE as int)) by (nonlinear_arith)
        requires
            0 <= x,
            0 <= y < ONE,
    ;
    assert(x * (ONE as int) / (ONE as int) == x) by {
        vstd::arithmetic::div_mod::lemma_div_by_multiple(x, ONE as int);
    }
}

/// Multiplies two values below `ONE` and rescales by `ONE`.
fn mul_scale16(x: u64, y: u64) -> (r: u64)
    requires
        x < 65536,
        y < 65536,
    ensures
        r == (x as int) * (y as int) / (ONE as int),
        r <= x,
{
    proof {
        assert((x as int) * (y as int) < 65536 * 65536) by (nonlinear_arith)
            requires
                x < 65536 && y < 65536,
        ;
        lemma_scale_le(x as int, y as int);
    }
    x * y / 65536
}

/// Bounds of the exponential polynomial: it stays within `(0, ONE]`, hits
/// `ONE` exactly at 0, and drops strictly below `ONE` for positive input.
proof fn lemma_exp_poly_bounds(fp: int)
    requires
        0 <= fp < ONE,
    ensures
        1 <= exp_poly_spec(fp) <= ONE,
        fp == 0 ==> exp_poly_spec(fp) == ONE,
        fp >= 1 ==> exp_poly_spec(fp) <= ONE - 1,
{
    let d = 870426590122533005788446720int;
    let n = exp_poly_num(fp);
    // upper bound: each positive term after the linear one is dominated by
    // half of the preceding negative term, so n <= 720*ONE^6 - 360*ONE^5*fp
    assert(6640827866535438581760 * (fp * fp) <= 435213295061266502894223360 * fp)
        by (nonlinear_arith)
        requires
            0 <= fp < 65536,
    ;
    assert(128849018880 * (fp * fp * fp * fp) <= 33776997205278720 * (fp * fp * fp))
        by (nonlinear_arith)
        requires
            0 <= fp < 65536,
    ;
    assert((fp * fp * fp * fp * fp * fp) <= 393216 * (fp * fp * fp * fp * fp)) by (nonlinear_arith)
        requires
            0 <= fp < 65536,
    ;
    assert(n <= 57044277010270323067351644241920 - 435213295061266502894223360 * fp);
    // lower bound: each negative term is dominated by the preceding
    // positive one, so n >= 720*ONE^5 * (ONE - fp)
    assert(33776997205278720 * (fp * fp * fp) <= 6640827866535438581760 * (fp * fp))
        by (nonlinear_arith)
        requires
            0 <= fp < 65536,
    ;
    assert(393216 * (fp * fp * fp * fp * fp) <= 128849018880 * (fp * fp * fp * fp))
        by (nonlinear_arith)
        requires
            0 <= fp < 65536,
    ;
    assert(0 <= (fp * fp * fp * fp * fp * fp)) by (nonlinear_arith);
    assert(n >= 57044277010270323067351644241920 - 870426590122533005788446720 * fp);
    assert(n >= d * (ONE - fp)) by (nonlinear_arith)
        requires
            n >= 57044277010270323067351644241920 - 870426590122533005788446720 * fp,
            d == 870426590122533005788446720,
    ;
    assert((d * (ONE - fp)) / d == ONE - fp) by {
        vstd::arithmetic::div_mod::lemma_div_multiples_vanish(ONE - fp, d);
    }
    assert(exp_poly_spec(fp) >= ONE - fp);
    assert(((ONE as int) * d) / d == ONE) by {
        vstd::arithmetic::div_mod::lemma_div_by_multiple(ONE as int, d);
    }
    assert(n <= (ONE as int) * d);
    assert(exp_poly_spec(fp) <= ONE);
    if fp == 0 {
        assert(n == (ONE as int) * d);
    }
    if fp >= 1 {
        // n <= D * (ONE - 1) + 360*ONE^5, whose quotient is ONE - 1
        assert(n <= d * 65535 + 435213295061266502894223360);
        assert((d * 65535 + 435213295061266502894223360) / d == 65535) by {
            vstd::arithmetic::div_mod::lemma_div_multiples_vanish_fancy(
                65535,
                435213295061266502894223360,
                d,
            );
        }
    }
}

/// The polynomial numerator strictly decreases at every integer step: the
/// forward difference groups into three non-negative brackets, the first
/// of which is strictly positive.
proof fn lemma_exp_poly_num_step(fp: int)
    requires
        0 <= fp,
        fp + 1 < ONE,
    ensures
        exp_poly_num(fp + 1) <= exp_poly_num(fp),
{
    let g = fp;
    let g2 = g * g;
    let g3 = g2 * g;
    let g4 = g3 * g;
    let g5 = g4 * g;
    let g6 = g5 * g;
    let h = g + 1;
    let h2 = h * h;
    let h3 = h2 * h;
    let h4 = h3 * h;
    let h5 = h4 * h;
    let h6 = h5 * h;
    // binomial expansions of the powers of g + 1
    assert(h2 == g2 + 2 * g + 1) by (nonlinear_arith)
        requires
            h == g + 1 && h2 == h * h && g2 == g * g,
    ;
    assert(h3 == g3 + 3 * g2 + 3 * g + 1) by (nonlinear_arith)
        requires
            h == g + 1 && h3 == h2 * h && h2 == g2 + 2 * g + 1 && g2 == g * g && g3 == g2 * g,
    ;
    assert(h4 == g4 + 4 * g3 + 6 * g2 + 4 * g + 1) by (nonlinear_arith)
        requires
            h == g + 1 && h4 == h3 * h && h3 == g3 + 3 * g2 + 3 * g + 1 && g2 == g * g && g3 == g2
                * g && g4 == g3 * g,
    ;
    assert(h5 == g5 + 5 * g4 + 10 * g3 + 10 * g2 + 5 * g + 1) by (nonlinear_arith)
        requires
            h == g + 1 && h5 == h4 * h && h4 == g4 + 4 * g3 + 6 * g2 + 4 * g + 1 && g2 == g * g
                && g3 == g2 * g && g4 == g3 * g && g5 == g4 * g,
    ;
    assert(h6 == g6 + 6 * g5 + 15 * g4 + 20 * g3 + 15 * g2 + 6 * g + 1) by (nonlinear_arith)
        requires
            h == g + 1 && h6 == h5 * h && h5 == g5 + 5 * g4 + 10 * g3 + 10 * g2 + 5 * g + 1 && g2
                == g * g && g3 == g2 * g && g4 == g3 * g && g5 == g4 * g && g6 == g5 * g,
    ;
    // the forward difference, grouped into three non-negative brackets
    let b1 = 870426590122533005788446720 - 6640827866535438581760 * (2 * g + 1);
    let b2 = 33776997205278720 * (3 * g2 + 3 * g + 1) - 128849018880 * (4 * g3 + 6 * g2 + 4 * g
        + 1);
    let b3 = 393216 * (5 * g4 + 10 * g3 + 10 * g2 + 5 * g + 1) - (6 * g5 + 15 * g4 + 20 * g3 + 15
        * g2 + 6 * g + 1);
    assert(b1 >= 0);
    assert(b2 >= 0) by (nonlinear_arith)
        requires
            0 <= g < 65536 && g2 == g * g && g3 == g2 * g && b2 == 33776997205278720 * (3 * g2 + 3
                * g + 1) - 128849018880 * (4 * g3 + 6 * g2 + 4 * g + 1),
    ;
    assert(b3 >= 0) by (nonlinear_arith)
        requires
            0 <= g < 65536 && g2 == g * g && g3 == g2 * g && g4 == g3 * g && g5 == g4 * g && b3
                == 393216 * (5 * g4 + 10 * g3 + 10 * g2 + 5 * g + 1) - (6 * g5 + 15 * g4 + 20 * g3
                + 15 * g2 + 6 * g + 1),
    ;
    assert(exp_poly_num(h) - exp_poly_num(g) == -b1 - b2 - b3);
}

/// The fixed-point polynomial is nonincreasing over the whole unit.
proof fn lemma_exp_poly_mono(f1: int, f2: int)
    requires
        0 <= f1 <= f2 < ONE,
    ensures
        exp_poly_spec(f2) <= exp_poly_spec(f1),
    decreases f2 - f1,
{
    if f1 < f2 {
        lemma_exp_poly_num_step(f2 - 1);
        lemma_exp_poly_mono(f1, f2 - 1);
    }
}

/// At the top of the unit the polynomial still dominates `E_INV`, so the
/// value at the end of one unit never falls below the value at the start
/// of the next.
proof fn lemma_exp_poly_boundary()
    ensures
        exp_poly_spec(65535) >= E_INV,
{
    let d = 870426590122533005788446720int;
    assert(exp_poly_num(65535) == 20995782225186749433405551673345) by (nonlinear_arith);
    assert(870426590122533005788446720 * 24121 + 222444841130800782428340225
        == 20995782225186749433405551673345) by (nonlinear_arith);
    assert((d * 24121 + 222444841130800782428340225) / d == 24121) by {
        vstd::arithmetic::div_mod::lemma_div_multiples_vanish_fancy(
            24121,
            222444841130800782428340225,
            d,
        );
    }
}

/// Bounds of the `E_INV` chain: it keeps values within `[0, start]`, and
/// any strictly positive number of steps lands strictly below `ONE` when
/// the start is at most `ONE`.
proof fn lemma_exp_chain_bounds(r: int, m: nat)
    requires
        0 <= r <= ONE,
    ensures
        0 <= exp_chain_spec(r, m) <= r,
        m >= 1 ==> exp_chain_spec(r, m) <= E_INV,
    decreases m,
{
    if m > 0 {
        let step = r * (E_INV as int) / (ONE as int);
        lemma_scale_le(r, E_INV as int);
        assert(step <= E_INV) by {
            assert(r * (E_INV as int) <= (ONE as int) * (E_INV as int)) by (nonlinear_arith)
                requires
                    0 <= r <= ONE,
            ;
            assert(((ONE as int) * (E_INV as int)) / (ONE as int) == E_INV) by {
                vstd::arithmetic::div_mod::lemma_div_multiples_vanish(E_INV as int, ONE as int);
            }
        }
        lemma_exp_chain_bounds(step, (m - 1) as nat);
    }
}

/// The `E_INV` chain is monotone in its starting value.
proof fn lemma_exp_chain_mono(x: int, y: int, m: nat)
    requires
        0 <= x <= y <= ONE,
    ensures
        exp_chain_spec(x, m) <= exp_chain_spec(y, m),
    decreases m,
{
    if m > 0 {
        let sx = x * (E_INV as int) / (ONE as int);
        let sy = y * (E_INV as int) / (ONE as int);
        lemma_scale_le(x, E_INV as int);
        lemma_scale_le(y, E_INV as int);
        assert(x * (E_INV as int) <= y * (E_INV as int)) by (nonlinear_arith)
            requires
                0 <= x <= y,
        ;
        lemma_exp_chain_mono(sx, sy, (m - 1) as nat);
    }
}

/// Range of `exp_neg_spec`: always within `[0, ONE]`, exactly `ONE` at 0,
/// and strictly below `ONE` for positive arguments.
pub proof fn lemma_exp_neg_bounds(t: u64)
    ensures
        0 <= exp_neg_spec(t) <= ONE,
        t == 0 ==> exp_neg_spec(t) == ONE,
        t >= 1 ==> exp_neg_spec(t) <= ONE - 1,
{
    let o = ONE as int;
    let ip = t as int / o;
    let fp = t as int % o;
    vstd::arithmetic::div_mod::lemma_fundamental_div_mod(t as int, o);
    assert(0 <= fp < o) by {
        vstd::arithmetic::div_mod::lemma_mod_bound(t as int, o);
    }
    assert(ip >= 0);
    if ip < 32 {
        lemma_exp_poly_bounds(fp);
        lemma_exp_chain_bounds(exp_poly_spec(fp), ip as nat);
        if t >= 1 {
            if ip == 0 {
                assert(fp >= 1);
            } else {
                assert(exp_neg_spec(t) <= E_INV);
            }
        }
    }
}

/// Computes `exp(-t)` in fixed point, exactly as `exp_neg_spec` states.
pub fn exp_neg(t: u64) -> (r: u64)
    ensures
        r == exp_neg_spec(t),
        r <= ONE,
{
    proof {
        lemma_exp_neg_bounds(t);
    }
    let ip: u64 = t / 65536;
    let fp: u64 = t % 65536;
    if ip >= 32 {
        return 0;
    }
    // evaluate the polynomial numerator, grouped into its three
    // non-negative brackets, then divide by 720 * ONE^5 once
    let f: u128 = fp as u128;
    proof {
        assert(f * f < 4294967296) by (nonlinear_arith)
            requires
                f < 65536,
        ;
    }
    let p2: u128 = f * f;
    proof {
        assert(p2 * f < 281474976710656) by (nonlinear_arith)
            requires
                p2 < 4294967296 && f < 65536,
        ;
    }
    let p3: u128 = p2 * f;
    proof {
        assert(p3 * f < 18446744073709551616) by (nonlinear_arith)
            requires
                p3 < 281474976710656 && f < 65536,
        ;
    }
    let p4: u128 = p3 * f;
    proof {
        assert(p4 * f < 1208925819614629174706176) by (nonlinear_arith)
            requires
                p4 < 18446744073709551616 && f < 65536,
        ;
    }
    let p5: u128 = p4 * f;
    proof {
        assert(p5 * f < 79228162514264337593543950336) by (nonlinear_arith)
            requires
                p5 < 1208925819614629174706176 && f < 65536,
        ;
        assert(33776997205278720 * p3 <= 6640827866535438581760 * p2) by (nonlinear_arith)
            requires
                p3 == p2 * f && f < 65536,
        ;
        assert(393216 * p5 <= 128849018880 * p4) by (nonlinear_arith)
            requires
                p5 == p4 * f && f < 65536,
        ;
    }
    let p6: u128 = p5 * f;
    let b1: u128 = 57044277010270323067351644241920 - 870426590122533005788446720 * f;
    let b2: u128 = 6640827866535438581760 * p2 - 33776997205278720 * p3;
    let b3: u128 = 128849018880 * p4 - 393216 * p5;
    let num: u128 = b1 + b2 + b3 + p6;
    proof {
        assert(num == exp_poly_num(fp as int));
        lemma_exp_poly_bounds(fp as int);
    }
    let mut r: u64 = (num / 870426590122533005788446720) as u64;
    proof {
        assert(r == exp_poly_spec(fp as int));
    }
    let ghost r0 = r as int;
    let mut j: u64 = 0;
    while j < ip
        invariant
            j <= ip,
            ip < 32,
            0 <= r <= ONE,
            exp_chain_spec(r as int, (ip - j) as nat) == exp_chain_spec(r0, ip as nat),
        decreases ip - j,
    {
        proof {
            lemma_scale_le(r as int, E_INV as int);
            assert(exp_chain_spec(r as int, (ip - j) as nat) == exp_chain_spec(
                r as int * (E_INV as int) / (ONE as int),
                (ip - j - 1) as nat,
            ));
        }
        r = r * (E_INV as u64) / 65536;
        j = j + 1;
    }
    r
}

/// The fixed-point exponential is monotone: a larger argument never gives
/// a larger value. Within one unit the polynomial numerator decreases; at
/// every unit boundary the polynomial's value at `ONE - 1` still dominates
/// `E_INV`, the value at the start of the next unit.
pub proof fn lemma_exp_neg_monotone(t1: u64, t2: u64)
    requires
        t1 <= t2,
    ensures
        exp_neg_spec(t2) <= exp_neg_spec(t1),
    decreases (t2 as int) / (ONE as int) - (t1 as int) / (ONE as int),
{
    let o = ONE as int;
    let ip1 = t1 as int / o;
    let fp1 = t1 as int % o;
    let ip2 = t2 as int / o;
    let fp2 = t2 as int % o;
    vstd::arithmetic::div_mod::lemma_fundamental_div_mod(t1 as int, o);
    vstd::arithmetic::div_mod::lemma_fundamental_div_mod(t2 as int, o);
    vstd::arithmetic::div_mod::lemma_mod_bound(t1 as int, o);
    vstd::arithmetic::div_mod::lemma_mod_bound(t2 as int, o);
    lemma_exp_neg_bounds(t1);
    lemma_exp_neg_bounds(t2);
    assert(ip1 <= ip2);
    if ip1 >= 32 {
        // both sides are in the zero tail
    } else if ip2 >= 32 {
        // the right side is zero, the left is non-negative
    } else if ip1 == ip2 {
        assert(fp1 <= fp2);
        lemma_exp_poly_mono(fp1, fp2);
        lemma_exp_poly_bounds(fp1);
        lemma_exp_poly_bounds(fp2);
        lemma_exp_chain_mono(exp_poly_spec(fp2), exp_poly_spec(fp1), ip1 as nat);
    } else {
        // step to the next unit boundary, then recurse
        let tb: u64 = ((ip1 + 1) * o) as u64;
        assert(tb as int == (ip1 + 1) * o) by (nonlinear_arith)
            requires
                0 <= ip1 < 32 && o == 65536 && tb as u64 == (((ip1 + 1) * o) as u64),
        ;
        assert((tb as int) / o == ip1 + 1) by {
            vstd::arithmetic::div_mod::lemma_div_multiples_vanish(ip1 + 1, o);
            assert(o * (ip1 + 1) == (ip1 + 1) * o) by (nonlinear_arith);
        }
        vstd::arithmetic::div_mod::lemma_fundamental_div_mod(tb as int, o);
        assert((tb as int) % o == 0);
        lemma_exp_poly_bounds(fp1);
        lemma_exp_poly_bounds(0);
        lemma_exp_poly_mono(fp1, o - 1);
        lemma_exp_poly_boundary();
        // exp at the boundary: one chain step applied to the full unit
        assert(exp_chain_spec(o, (ip1 + 1) as nat) == exp_chain_spec(
            o * (E_INV as int) / o,
            ip1 as nat,
        ));
        assert(o * (E_INV as int) / o == E_INV) by {
            vstd::arithmetic::div_mod::lemma_div_multiples_vanish(E_INV as int, o);
        }
        lemma_exp_chain_mono(E_INV as int, exp_poly_spec(fp1), ip1 as nat);
        assert(exp_neg_spec(tb) <= exp_neg_spec(t1));
        assert(tb <= t2) by (nonlinear_arith)
            requires
                (tb as int) == (ip1 + 1) * o && ip1 + 1 <= ip2 && (t2 as int) == o * ip2 + fp2 && 0
                    <= fp2 && o > 0,
        ;
        lemma_exp_neg_monotone(tb, t2);
    }
}

/// Cross-multiplied fractions order their floors: with positive
/// denominators and `a1 * b2 <= a2 * b1`, `a1 / b1 <= a2 / b2`.
proof fn lemma_div_cross_mono(a1: int, b1: int, a2: int, b2: int)
    requires
        0 <= a1,
        0 < b1,
        0 < b2,
        a1 * b2 <= a2 * b1,
    ensures
        a1 / b1 <= a2 / b2,
{
    let q = a1 / b1;
    vstd::arithmetic::div_mod::lemma_fundamental_div_mod(a1, b1);
    vstd::arithmetic::div_mod::lemma_mod_bound(a1, b1);
    assert(q * b1 <= a1);
    assert(q >= 0);
    assert(q * b2 * b1 <= a2 * b1) by (nonlinear_arith)
        requires
            q * b1 <= a1 && a1 * b2 <= a2 * b1 && b2 > 0,
    ;
    assert(q * b2 <= a2) by (nonlinear_arith)
        requires
            q * b2 * b1 <= a2 * b1 && b1 > 0,
    ;
    assert((q * b2) / b2 == q) by {
        vstd::arithmetic::div_mod::lemma_div_by_multiple(q, b2);
    }
}

/// The fixed-point logistic function is monotone nondecreasing, as the
/// real logistic function is.
pub proof fn lemma_sigmoid_monotone(z1: i64, z2: i64)
    requires
        -FX_MAX <= z1 <= z2 <= FX_MAX,
    ensures
        sigmoid_spec(z1) <= sigmoid_spec(z2),
{
    let o = ONE as int;
    if z1 >= 0 {
        let e1 = exp_neg_spec(z1 as u64);
        let e2 = exp_neg_spec(z2 as u64);
        lemma_exp_neg_monotone(z1 as u64, z2 as u64);
        lemma_exp_neg_bounds(z1 as u64);
        lemma_exp_neg_bounds(z2 as u64);
        assert(o * o / (o + e1) <= o * o / (o + e2));
    } else if z2 < 0 {
        let e1 = exp_neg_spec((-(z1 as int)) as u64);
        let e2 = exp_neg_spec((-(z2 as int)) as u64);
        lemma_exp_neg_monotone((-(z2 as int)) as u64, (-(z1 as int)) as u64);
        lemma_exp_neg_bounds((-(z1 as int)) as u64);
        lemma_exp_neg_bounds((-(z2 as int)) as u64);
        assert((o * e1) * (o + e2) <= (o * e2) * (o + e1)) by (nonlinear_arith)
            requires
                0 <= e1 <= e2 && o > 0,
        ;
        lemma_div_cross_mono(o * e1, o + e1, o * e2, o + e2);
    } else {
        lemma_sigmoid_threshold(z1);
        lemma_sigmoid_threshold(z2);
    }
}

/// Computes the logistic function in fixed point, exactly as
/// `sigmoid_spec` states.
pub fn sigmoid(z: i64) -> (s: i64)
    requires
        -FX_MAX <= z <= FX_MAX,
    ensures
        s == sigmoid_spec(z),
        0 <= s <= ONE,
{
    if z >= 0 {
        let e = exp_neg(z as u64);
        proof {
            lemma_exp_neg_bounds(z as u64);
            assert((65536u64 * 65536u64) / (65536 + e) <= 65536) by {
                assert((ONE as int) * (ONE as int) / (ONE as int + e as int) <= (ONE as int) * (
                ONE as int) / (ONE as int));
                vstd::arithmetic::div_mod::lemma_div_multiples_vanish(ONE as int, ONE as int);
            }
        }
        let s: u64 = 65536u64 * 65536u64 / (65536 + e);
        s as i64
    } else {
        let e = exp_neg((-z) as u64);
        proof {
            lemma_exp_neg_bounds((-z) as u64);
            assert(65536u64 * e / (65536 + e) <= 65536) by {
                assert((ONE as int) * (e as int) <= (ONE as int + e as int) * (ONE as int))
                    by (nonlinear_arith)
                    requires
                        0 <= e <= ONE,
                ;
                vstd::arithmetic::div_mod::lemma_div_by_multiple(ONE as int + e as int, ONE as int);
                assert((ONE as int + e as int) * (ONE as int) / (ONE as int) == ONE as int + e
                    as int);
                assert((ONE as int) * (e as int) / (ONE as int + e as int) <= (ONE as int + e
                    as int) * (ONE as int) / (ONE as int + e as int));
                vstd::arithmetic::div_mod::lemma_div_multiples_vanish(
                    ONE as int,
                    ONE as int + e as int,
                );
            }
        }
        let s: u64 = 65536u64 * e / (65536 + e);
        s as i64
    }
}

/// The prediction threshold of the fixed-point logistic function is exact:
/// the sigmoid reaches `HALF` exactly on the non-negative inputs.
pub proof fn lemma_sigmoid_threshold(z: i64)
    requires
        -FX_MAX <= z <= FX_MAX,
    ensures
        sigmoid_spec(z) >= HALF <==> z >= 0,
{
    let o = ONE as int;
    if z >= 0 {
        let e = exp_neg_spec(z as u64);
        lemma_exp_neg_bounds(z as u64);
        assert(o * o / (o + e) >= o * o / (2 * o));
        assert(o * o / (2 * o) == HALF) by {
            assert(o * o == (2 * o) * HALF);
            vstd::arithmetic::div_mod::lemma_div_by_multiple(HALF as int, 2 * o);
            assert((HALF as int) * (2 * o) == (2 * o) * (HALF as int)) by (nonlinear_arith);
        }
    } else {
        let e = exp_neg_spec((-(z as int)) as u64);
        lemma_exp_neg_bounds((-(z as int)) as u64);
        assert((-(z as int)) as u64 >= 1);
        assert(e <= o - 1);
        // o * e / (o + e) < HALF  <==  o * e < HALF * (o + e)
        assert(o * e < (HALF as int) * (o + e)) by (nonlinear_arith)
            requires
                0 <= e <= o - 1 && o == 65536 && HALF == 32768,
        ;
        assert(o * e / (o + e) < HALF) by {
            assert((HALF as int) * (o + e) - 1 < (HALF as int) * (o + e));
            assert(o * e <= (HALF as int) * (o + e) - 1);
            assert(((HALF as int) * (o + e) - 1) / (o + e) <= HALF - 1) by {
                assert((HALF as int) * (o + e) - 1 == (o + e) * (HALF - 1) + (o + e - 1))
                    by (nonlinear_arith);
                vstd::arithmetic::div_mod::lemma_div_multiples_vanish_fancy(
                    HALF - 1,
                    o + e - 1,
                    o + e,
                );
            }
        }
    }
}

/// Number of halvings that bring `m` strictly below `2 * ONE`.
pub open spec fn norm_steps(m: int) -> nat
    decreases m,
{
    if m < 2 * ONE {
        0
    } else {
        1 + norm_steps(m / 2)
    }
}

/// The value `m` reaches after `norm_steps(m)` halvings.
pub open spec fn norm_val(m: int) -> int
    decreases m,
{
    if m < 2 * ONE {
        m
    } else {
        norm_val(m / 2)
    }
}

/// The seventh-degree odd series for `2 * atanh(w)`, each power rescaled
/// by `ONE`.
pub open spec fn ln_series_spec(w: int) -> int {
    let w2 = w * w / (ONE as int);
    let w3 = w2 * w / (ONE as int);
    let w4 = w3 * w / (ONE as int);
    let w5 = w4 * w / (ONE as int);
    let w6 = w5 * w / (ONE as int);
    let w7 = w6 * w / (ONE as int);
    w + w3 / 3 + w5 / 5 + w7 / 7
}

/// `ln(v)` in fixed point for `v >= 1`: normalize `v * ONE` into
/// `[ONE, 2 * ONE)` by halvings, then `k * ln(2)` plus the atanh series.
pub open spec fn ln_u_spec(v: u128) -> int {
    let m0 = v as int * (ONE as int);
    let k = norm_steps(m0);
    let m = norm_val(m0);
    let w = (m - ONE) * (ONE as int) / (m + ONE);
    k * (LN2 as int) + 2 * ln_series_spec(w)
}

/// Normalization lands in `[ONE, 2 * ONE)` when starting at `ONE` or more.
proof fn lemma_norm_val_range(m: int)
    requires
        m >= ONE,
    ensures
        ONE <= norm_val(m) < 2 * ONE,
    decreases m,
{
    if m >= 2 * ONE {
        lemma_norm_val_range(m / 2);
    }
}

/// Computes `ln(v)` in fixed point, exactly as `ln_u_spec` states; the
/// result is non-negative.
pub fn ln_u(v: u128) -> (r: u64)
    requires
        1 <= v <= LN_ARG_LIMIT,
    ensures
        r == ln_u_spec(v),
        r < 8388608,
{
    let ghost m0 = v as int * (ONE as int);
    proof {
        assert(m0 <= LN_ARG_LIMIT as int * 65536) by (nonlinear_arith)
            requires
                1 <= v <= LN_ARG_LIMIT && m0 == v as int * 65536,
        ;
        assert(m0 >= 65536) by (nonlinear_arith)
            requires
                v >= 1 && m0 == v as int * 65536,
        ;
    }
    let mut m: u128 = v * 65536;
    let mut k: u64 = 0;
    proof {
        vstd::arithmetic::power2::lemma2_to64();
        assert((m as int) * vstd::arithmetic::power2::pow2(0) == m0);
    }
    while m >= 131072
        invariant
            m as int >= 65536,
            m0 <= LN_ARG_LIMIT as int * 65536,
            (m as int) * vstd::arithmetic::power2::pow2(k as nat) <= m0,
            norm_steps(m as int) + k == norm_steps(m0),
            norm_val(m as int) == norm_val(m0),
            k <= 121,
        decreases m,
    {
        proof {
            let p2k = vstd::arithmetic::power2::pow2(k as nat);
            vstd::arithmetic::power2::lemma_pow2_pos(k as nat);
            vstd::arithmetic::power2::lemma2_to64();
            vstd::arithmetic::power2::lemma2_to64_rest();
            // k stays small: otherwise m * 2^k would exceed m0's bound
            if k >= 121 {
                vstd::arithmetic::power2::lemma_pow2_adds(61, 60);
                if k > 121 {
                    vstd::arithmetic::power2::lemma_pow2_strictly_increases(121, k as nat);
                }
                assert(p2k >= vstd::arithmetic::power2::pow2(121));
                assert((m as int) * p2k >= 131072 * vstd::arithmetic::power2::pow2(121))
                    by (nonlinear_arith)
                    requires
                        m as int >= 131072 && p2k >= vstd::arithmetic::power2::pow2(121),
                ;
                assert(false);
            }
            // maintain the product bound across the halving
            assert(2 * ((m as int) / 2) <= m as int) by {
                vstd::arithmetic::div_mod::lemma_fundamental_div_mod(m as int, 2);
                vstd::arithmetic::div_mod::lemma_mod_bound(m as int, 2);
            }
            vstd::arithmetic::power2::lemma_pow2_adds(k as nat, 1);
            assert(((m as int) / 2) * vstd::arithmetic::power2::pow2((k + 1) as nat) <= (m as int)
                * p2k) by (nonlinear_arith)
                requires
                    2 * ((m as int) / 2) <= m as int,
                    p2k >= 0,
                    vstd::arithmetic::power2::pow2((k + 1) as nat) == 2 * p2k,
            ;
            assert((m as int) / 2 >= 65536);
        }
        m = m / 2;
        k = k + 1;
    }
    proof {
        lemma_norm_val_range(m0);
    }
    let mw: u64 = m as u64;
    let w: u64 = (mw - 65536) * 65536 / (mw + 65536);
    proof {
        assert(w as int == ((m as int) - ONE) * (ONE as int) / ((m as int) + ONE));
        assert(w < 65536) by {
            assert(((m as int) - ONE) * (ONE as int) < ((m as int) + ONE) * (ONE as int))
                by (nonlinear_arith)
                requires
                    ONE <= (m as int) && (m as int) < 2 * ONE,
            ;
            vstd::arithmetic::div_mod::lemma_div_by_multiple((m as int) + ONE, ONE as int);
            assert(((m as int) - ONE) * (ONE as int) / (ONE as int) <= (m as int) - ONE);
            assert(((m as int) - ONE) * (ONE as int) / ((m as int) + ONE) <= ((m as int) - ONE) * (
            ONE as int) / (ONE as int));
        }
    }
    let w2: u64 = mul_scale16(w, w);
    let w3: u64 = mul_scale16(w2, w);
    let w4: u64 = mul_scale16(w3, w);
    let w5: u64 = mul_scale16(w4, w);
    let w6: u64 = mul_scale16(w5, w);
    let w7: u64 = mul_scale16(w6, w);
    let series: u64 = w + w3 / 3 + w5 / 5 + w7 / 7;
    proof {
        assert(series < 4 * 65536);
        assert(k * 45426 <= 121 * 45426);
    }
    let r: u64 = k * 45426 + 2 * series;
    proof {
        assert(series as int == ln_series_spec(w as int));
        assert(r == ln_u_spec(v));
    }
    r
}

} // verus!
