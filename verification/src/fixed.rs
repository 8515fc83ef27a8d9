//! Fixed-point base-2 exponential and logarithm, used by the annealing
//! engine for its temperature schedule and Metropolis acceptance rule.
//!
//! Values are scaled by `SCALE` (so `SCALE` stands for 1.0). Fractional
//! parts are interpolated linearly between neighbouring powers of two,
//! which is smooth and monotone enough for an annealing schedule.

use vstd::prelude::*;

use vstd::arithmetic::div_mod::{lemma_div_denominator, lemma_div_is_ordered,
    lemma_div_multiples_vanish, lemma_div_pos_is_pos, lemma_fundamental_div_mod,
    lemma_fundamental_div_mod_converse};
use vstd::arithmetic::mul::lemma_mul_inequality;
use vstd::arithmetic::power2::{lemma2_to64, lemma_pow2_adds, lemma_pow2_pos,
    lemma_pow2_strictly_increases, lemma_pow2_unfold, pow2};

use crate::score::SCALE;

verus! {

/// log2(e), scaled by `SCALE`.
pub const LOG2_E: i64 = 1_512_775;

/// Number of fractional bits of the fixed-point representation.
pub const FP_BITS: u32 = 20;

/// Floor of the base-2 logarithm; zero for inputs below 2.
pub open spec fn spec_ilog2(x: int) -> int
    decreases x,
{
    if x < 2 {
        0
    } else {
        1 + spec_ilog2(x / 2)
    }
}

/// Piecewise-linear base-2 logarithm of `x / SCALE`, scaled by `SCALE`:
/// exact at powers of two, linear in between.
pub open spec fn spec_log2(x: int) -> int {
    let k = spec_ilog2(x);
    (k - FP_BITS as int) * SCALE as int + x * SCALE as int / pow2(k as nat) as int - SCALE as int
}

/// Piecewise-linear base-2 exponential of `x / SCALE`, scaled by `SCALE`
/// and saturated to `2^63`.
pub open spec fn spec_exp2(x: int) -> int {
    let k = x / SCALE as int;
    let f = x % SCALE as int;
    if k >= 43 {
        pow2(63) as int
    } else if k >= 0 {
        (SCALE as int + f) * pow2(k as nat) as int
    } else if k >= -63 {
        (SCALE as int + f) / pow2((-k) as nat) as int
    } else {
        0
    }
}

/// `spec_ilog2` is the floor of the base-2 logarithm.
proof fn lemma_ilog2_bounds(x: int)
    requires
        x >= 1,
    ensures
        0 <= spec_ilog2(x),
        pow2(spec_ilog2(x) as nat) as int <= x,
        x < 2 * pow2(spec_ilog2(x) as nat) as int,
    decreases x,
{
    if x < 2 {
        assert(pow2(0) == 1) by { lemma2_to64(); }
    } else {
        lemma_ilog2_bounds(x / 2);
        let k = spec_ilog2(x / 2);
        lemma_pow2_unfold((k + 1) as nat);
        lemma_fundamental_div_mod(x, 2);
        lemma_pow2_pos(k as nat);
    }
}

/// Floor of the base-2 logarithm, with the matching power of two.
fn ilog2_with_pow(x: u64) -> (r: (u32, u64))
    requires
        x >= 1,
    ensures
        r.0 as int == spec_ilog2(x as int),
        r.1 as int == pow2(r.0 as nat) as int,
        r.1 <= x,
        r.0 <= 63,
    {
    let mut y = x;
    let mut k: u32 = 0;
    let mut p: u64 = 1;
    proof {
        lemma2_to64();
    }
    while y >= 2
        invariant
            x >= 1,
            y >= 1,
            y as int == x as int / pow2(k as nat) as int,
            p as int == pow2(k as nat) as int,
            p <= x,
            spec_ilog2(x as int) == k as int + spec_ilog2(y as int),
            k <= 63,
        decreases y,
    {
        proof {
            lemma_pow2_unfold((k + 1) as nat);
            lemma_pow2_pos(k as nat);
            lemma_div_denominator(x as int, pow2(k as nat) as int, 2);
            // y >= 2 keeps x / 2^(k+1) >= 1, so k + 1 stays within 63.
            lemma_div_pos_is_pos(y as int, 2);
            let pk = pow2(k as nat) as int;
            lemma_fundamental_div_mod(x as int, pk);
            assert(2 * pk <= x as int) by (nonlinear_arith)
                requires
                    x as int == pk * (y as int) + x as int % pk,
                    x as int % pk >= 0,
                    y >= 2,
                    pk > 0,
            ;
            if k >= 63 {
                lemma2_to64_rest_helper();
            }
        }
        y = y / 2;
        k = k + 1;
        p = p * 2;
    }
    proof {
        lemma_pow2_pos(k as nat);
        lemma_fundamental_div_mod(x as int, pow2(k as nat) as int);
    }
    (k, p)
}

/// For a mantissa below `2^21` and an exponent up to 42, the product
/// stays below `2^63`.
proof fn lemma_exp2_step_bound(base: int, j: nat)
    requires
        0 <= base < 2 * SCALE as int,
        j <= 42,
    ensures
        base * pow2(j) as int <= pow2(63) as int,
{
    lemma2_to64();
    lemma2_to64_rest_helper();
    lemma_pow2_pos(j);
    if j < 42 {
        lemma_pow2_strictly_increases(j, 42);
    }
    lemma_mul_inequality(pow2(j) as int, pow2(42) as int, base);
    assert(pow2(j) as int * base == base * pow2(j) as int) by (nonlinear_arith);
    assert(pow2(42) as int * base == base * pow2(42) as int) by (nonlinear_arith);
    assert(base * pow2(42) as int <= 0x200000 * pow2(42) as int) by (nonlinear_arith)
        requires base <= 0x200000 && pow2(42) as int >= 0,
    ;
    lemma_pow2_adds(21, 42);
    assert(pow2(21) == 0x200000) by { lemma2_to64(); }
}

/// `pow2(63)` and `pow2(64)` as concrete values.
proof fn lemma2_to64_rest_helper()
    ensures
        pow2(63) == 0x8000000000000000,
        pow2(64) == 0x10000000000000000,
{
    vstd::arithmetic::power2::lemma2_to64_rest();
}

/// Fixed-point base-2 logarithm of `x / SCALE`, for `x` in `(0, SCALE]`
/// (so the result is in `[-FP_BITS, 0]`, scaled).
pub fn log2_fixed(x: i64) -> (r: i64)
    requires
        1 <= x <= SCALE,
    ensures
        r == spec_log2(x as int),
        -(FP_BITS as i64) * SCALE <= r <= 0,
{
    let (k, p) = ilog2_with_pow(x as u64);
    proof {
        lemma_ilog2_bounds(x as int);
        // k <= FP_BITS because 2^k <= x <= SCALE == 2^FP_BITS.
        lemma2_to64();
        if k > FP_BITS {
            lemma_pow2_strictly_increases(FP_BITS as nat, k as nat);
        }
        let pi = pow2(k as nat) as int;
        lemma_pow2_pos(k as nat);
        // SCALE <= frac == x * SCALE / 2^k < 2 * SCALE.
        lemma_mul_inequality(pi, x as int, SCALE as int);
        assert(pi * SCALE as int == SCALE as int * pi) by (nonlinear_arith);
        lemma_div_multiples_vanish(SCALE as int, pi);
        lemma_div_is_ordered(pi * SCALE as int, x as int * SCALE as int, pi);
        lemma_mul_inequality(x as int, 2 * pi, SCALE as int);
        assert(2 * pi * SCALE as int == (2 * SCALE as int) * pi) by (nonlinear_arith);
        lemma_div_multiples_vanish(2 * SCALE as int, pi);
        lemma_div_is_ordered(x as int * SCALE as int, 2 * pi * SCALE as int, pi);
    }
    let frac = x * SCALE / p as i64;
    (k as i64 - FP_BITS as i64) * SCALE + frac - SCALE
}

/// Fixed-point base-2 exponential of `x / SCALE`, saturated to `2^63`.
pub fn exp2_fixed(x: i64) -> (r: u64)
    requires
        -0x2000_0000_0000 <= x <= 0x2000_0000_0000,
    ensures
        r as int == spec_exp2(x as int),
        r as int <= pow2(63) as int,
{
    let sc = SCALE;
    let ghost xi = x as int;
    let (k, f): (i64, i64) = if x >= 0 {
        (x / sc, x % sc)
    } else {
        let q = (-x + sc - 1) / sc;
        let rem = x + q * sc;
        proof {
            lemma_fundamental_div_mod(-x as int + sc as int - 1, sc as int);
            lemma_fundamental_div_mod_converse(xi, sc as int, -(q as int), rem as int);
        }
        (-q, rem)
    };
    proof {
        assert(k as int == xi / SCALE as int && f as int == xi % SCALE as int);
        lemma2_to64();
        lemma2_to64_rest_helper();
    }
    let base = (sc + f) as u64;
    if k >= 43 {
        proof {
            lemma2_to64_rest_helper();
        }
        return 0x8000_0000_0000_0000u64;
    }
    if k >= 0 {
        let mut r = base;
        let mut i: i64 = 0;
        proof {
            assert(pow2(0) == 1) by { lemma2_to64(); }
            assert(base as int * pow2(0) as int == base as int) by (nonlinear_arith)
                requires pow2(0) == 1,
            ;
        }
        while i < k
            invariant
                0 <= i <= k < 43,
                SCALE as int <= base as int && (base as int) < 2 * SCALE as int,
                r as int == base as int * pow2(i as nat) as int,
            decreases k - i,
        {
            proof {
                lemma_pow2_unfold((i + 1) as nat);
                lemma_pow2_pos(i as nat);
                assert(base as int * (2 * pow2(i as nat) as int)
                    == 2 * (base as int * pow2(i as nat) as int)) by (nonlinear_arith);
                lemma_exp2_step_bound(base as int, (i + 1) as nat);
                lemma2_to64_rest_helper();
                assert(2 * (r as int) == base as int * pow2((i + 1) as nat) as int);
            }
            r = r * 2;
            i = i + 1;
        }
        proof {
            lemma_exp2_step_bound(base as int, k as nat);
            lemma2_to64_rest_helper();
        }
        r
    } else {
        let m = if k < -63 { 63u64 } else { (-k) as u64 };
        let mut r = base;
        let mut i: u64 = 0;
        while i < m
            invariant
                i <= m <= 63,
                r as int == base as int / pow2(i as nat) as int,
                (base as int) < 2 * SCALE as int,
            decreases m - i,
        {
            proof {
                lemma_pow2_unfold((i + 1) as nat);
                lemma_pow2_pos(i as nat);
                lemma_div_denominator(base as int, pow2(i as nat) as int, 2);
            }
            r = r / 2;
            i = i + 1;
        }
        proof {
            lemma_pow2_pos(m as nat);
            lemma_div_pos_is_pos(base as int, pow2(m as nat) as int);
            if k < -63 {
                // Far below the representable range the result is zero.
                lemma2_to64_rest_helper();
                assert(base as int / pow2(63) as int == 0) by {
                    vstd::arithmetic::div_mod::lemma_basic_div(base as int, pow2(63) as int);
                }
            }
            lemma2_to64_rest_helper();
        }
        r
    }
}

/// Acceptance threshold for a losing move, scaled to `2^63`: the
/// exponent is `Δ·β·log2(e)` in fixed point, so the threshold is `2^63`
/// times the Metropolis probability `exp(Δ·β)`.
pub open spec fn spec_accept_threshold(diff: int, beta: int) -> int {
    spec_exp2(63 * SCALE as int - (-diff) * beta * LOG2_E as int / (SCALE as int * SCALE as int))
}

/// Threshold against which a fresh 63-bit uniform draw is compared when a
/// move loses score.
pub fn accept_threshold(diff: i64, beta: u64) -> (t: u64)
    requires
        -SCALE <= diff <= 0,
        beta as int <= pow2(41) as int,
    ensures
        t as int == spec_accept_threshold(diff as int, beta as int),
{
    proof {
        vstd::arithmetic::power2::lemma2_to64_rest();
        assert((-(diff as int)) * (beta as int) * (LOG2_E as int)
            <= 0x10_0000 * 0x200_0000_0000 * 0x17_1547) by (nonlinear_arith)
            requires
                0 <= -(diff as int) <= 0x10_0000,
                0 <= beta as int <= 0x200_0000_0000,
        ;
        assert((-(diff as int)) * (beta as int) * (LOG2_E as int) >= 0) by (nonlinear_arith)
            requires
                0 <= -(diff as int),
                0 <= beta as int,
        ;
    }
    let mag: u128 = ((-diff) as u128) * (beta as u128) * (LOG2_E as u128);
    proof {
        lemma_div_is_ordered(mag as int, 0x10_0000int * 0x200_0000_0000 * 0x17_1547,
            SCALE as int * SCALE as int);
        lemma_div_pos_is_pos(mag as int, SCALE as int * SCALE as int);
    }
    let y = (mag / ((SCALE as u128) * (SCALE as u128))) as u64;
    exp2_fixed(63 * SCALE - y as i64)
}

/// The temperature schedule: `β = 1 / (temp0^(1−t) · temp1^t)`, computed
/// as `2^(−interp(log2(temp0), log2(temp1), t))` with `t = t_num / t_den`.
pub open spec fn spec_interp(l0: int, l1: int, t_num: int, t_den: int) -> int {
    if l1 >= l0 {
        l0 + (l1 - l0) * t_num / t_den
    } else {
        l0 - (l0 - l1) * t_num / t_den
    }
}

/// The inverse temperature at normalized time `t_num / t_den`.
pub open spec fn spec_beta(temp0: int, temp1: int, t_num: int, t_den: int) -> int {
    spec_exp2(-spec_interp(spec_log2(temp0), spec_log2(temp1), t_num, t_den))
}

/// Inverse temperature of the geometric annealing schedule.
pub fn beta_fixed(temp0: i64, temp1: i64, t_num: u64, t_den: u64) -> (b: u64)
    requires
        1 <= temp0 <= SCALE,
        1 <= temp1 <= SCALE,
        t_num <= t_den,
        1 <= t_den <= 0xFFFF_FFFF,
    ensures
        b as int == spec_beta(temp0 as int, temp1 as int, t_num as int, t_den as int),
        b as int <= pow2(41) as int,
{
    let l0 = log2_fixed(temp0);
    let l1 = log2_fixed(temp1);
    let e: i64 = if l1 >= l0 {
        proof {
            lemma_mul_bound_interp(l1 as int - l0 as int, t_num as int, t_den as int);
            assert((l1 as int - l0 as int) * (t_num as int)
                <= 0x140_0000 * 0x1_0000_0000) by (nonlinear_arith)
                requires
                    0 <= l1 as int - l0 as int <= 0x140_0000,
                    0 <= t_num as int <= 0x1_0000_0000,
            ;
            assert((l1 as int - l0 as int) * (t_num as int) >= 0) by (nonlinear_arith)
                requires 0 <= l1 as int - l0 as int && 0 <= t_num as int,
            ;
        }
        l0 + (l1 - l0) * t_num as i64 / t_den as i64
    } else {
        proof {
            lemma_mul_bound_interp(l0 as int - l1 as int, t_num as int, t_den as int);
            assert((l0 as int - l1 as int) * (t_num as int)
                <= 0x140_0000 * 0x1_0000_0000) by (nonlinear_arith)
                requires
                    0 <= l0 as int - l1 as int <= 0x140_0000,
                    0 <= t_num as int <= 0x1_0000_0000,
            ;
            assert((l0 as int - l1 as int) * (t_num as int) >= 0) by (nonlinear_arith)
                requires 0 <= l0 as int - l1 as int && 0 <= t_num as int,
            ;
        }
        l0 - (l0 - l1) * t_num as i64 / t_den as i64
    };
    proof {
        assert(e as int == spec_interp(l0 as int, l1 as int, t_num as int, t_den as int));
        assert(-(FP_BITS as int) * SCALE as int <= e as int <= 0);
        // β = 2^(−e/SCALE) with −e/SCALE ≤ FP_BITS, so β < 2^(FP_BITS+1)·SCALE ≤ 2^41.
        let a = -(e as int);
        lemma_exp2_bound_small(a);
    }
    exp2_fixed(-e)
}

/// The linear interpolation step stays between 0 and its full magnitude.
proof fn lemma_mul_bound_interp(d: int, t_num: int, t_den: int)
    requires
        0 <= d,
        0 <= t_num <= t_den,
        1 <= t_den,
    ensures
        0 <= d * t_num / t_den <= d,
{
    lemma_div_pos_is_pos(d * t_num, t_den);
    lemma_mul_inequality(t_num, t_den, d);
    assert(t_num * d == d * t_num) by (nonlinear_arith);
    assert(t_den * d == d * t_den) by (nonlinear_arith);
    lemma_div_is_ordered(d * t_num, d * t_den, t_den);
    lemma_div_multiples_vanish(d, t_den);
    assert(t_den * d == d * t_den) by (nonlinear_arith);
}

/// For exponents up to `FP_BITS`, the exponential stays below `2^41`.
proof fn lemma_exp2_bound_small(a: int)
    requires
        0 <= a <= FP_BITS as int * SCALE as int,
    ensures
        spec_exp2(a) <= pow2(41) as int,
{
    let k = a / SCALE as int;
    let f = a % SCALE as int;
    lemma_div_is_ordered(a, FP_BITS as int * SCALE as int, SCALE as int);
    assert(FP_BITS as int * SCALE as int == SCALE as int * FP_BITS as int) by (nonlinear_arith);
    lemma_div_multiples_vanish(FP_BITS as int, SCALE as int);
    lemma_div_pos_is_pos(a, SCALE as int);
    assert(0 <= k <= FP_BITS as int);
    lemma2_to64();
    if k >= 0 && k < 43 {
        lemma_pow2_pos(k as nat);
        if k < 21 {
            if k < 20 {
                lemma_pow2_strictly_increases(k as nat, 20);
            }
            lemma_mul_inequality(pow2(k as nat) as int, pow2(20) as int,
                SCALE as int + f);
            assert(pow2(k as nat) as int * (SCALE as int + f)
                == (SCALE as int + f) * pow2(k as nat) as int) by (nonlinear_arith);
            assert(pow2(20) as int * (SCALE as int + f)
                == (SCALE as int + f) * pow2(20) as int) by (nonlinear_arith);
            assert((SCALE as int + f) * pow2(20) as int
                <= (2 * SCALE as int) * pow2(20) as int) by (nonlinear_arith)
                requires SCALE as int + f <= 2 * SCALE as int && pow2(20) as int >= 0,
            ;
            lemma_pow2_adds(21, 20);
        }
    }
}

} // verus!
