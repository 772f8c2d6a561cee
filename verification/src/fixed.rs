//! Fixed-point scalar arithmetic for weights, activations and fitness values.
//!
//! A real number `x` is represented by the `i64` value `x * SCALE`, saturated
//! into `[-BOUND, BOUND]`. All operations are total and have exact
//! mathematical specifications, so every computation over these scalars is
//! fully deterministic and pinned down by the contracts.

use vstd::prelude::*;

verus! {

/// Number of fixed-point units per 1.0.
pub const SCALE: i64 = 65536;

/// Largest magnitude a scalar may take (2^30 units, about 16384.0).
pub const BOUND: i64 = 1073741824;

/// `exp(-1) * SCALE`, rounded to the nearest unit.
pub const EXP_NEG_ONE: i64 = 24109;

/// Arguments at or beyond `SIGMOID_CUTOFF` units saturate the sigmoid.
pub const SIGMOID_CUTOFF: i64 = 1048576;

/// Saturate an integer into the scalar domain `[-BOUND, BOUND]`.
pub open spec fn clamp_spec(x: int) -> int {
    if x > BOUND as int {
        BOUND as int
    } else if x < -(BOUND as int) {
        -(BOUND as int)
    } else {
        x
    }
}

/// Truncating division by `SCALE` (rounds toward zero, as `/` does on `i64`).
pub open spec fn div_scale_spec(x: int) -> int {
    if x >= 0 {
        x / (SCALE as int)
    } else {
        -((-x) / (SCALE as int))
    }
}

/// Saturating addition of two in-range scalars.
pub open spec fn add_sat_spec(a: int, b: int) -> int {
    clamp_spec(a + b)
}

/// Saturating fixed-point multiplication of two in-range scalars.
pub open spec fn mul_sat_spec(a: int, b: int) -> int {
    clamp_spec(div_scale_spec(a * b))
}

/// A scalar lies in the representable range.
pub open spec fn in_range(x: int) -> bool {
    -(BOUND as int) <= x <= BOUND as int
}

/// Saturate an arbitrary `i64` into the scalar domain.
pub fn clamp(x: i64) -> (r: i64)
    ensures
        r == clamp_spec(x as int),
        in_range(r as int),
{
    if x > BOUND {
        BOUND
    } else if x < -BOUND {
        -BOUND
    } else {
        x
    }
}

/// Saturating addition.
pub fn add_sat(a: i64, b: i64) -> (r: i64)
    requires
        in_range(a as int),
        in_range(b as int),
    ensures
        r == add_sat_spec(a as int, b as int),
        in_range(r as int),
{
    clamp(a + b)
}

/// Saturating fixed-point multiplication: `(a * b) / SCALE`, saturated.
pub fn mul_sat(a: i64, b: i64) -> (r: i64)
    requires
        in_range(a as int),
        in_range(b as int),
    ensures
        r == mul_sat_spec(a as int, b as int),
        in_range(r as int),
{
    proof {
        assert((a as int) * (b as int) <= (BOUND as int) * (BOUND as int)
            && (a as int) * (b as int) >= -((BOUND as int) * (BOUND as int)))
            by (nonlinear_arith)
            requires
                in_range(a as int),
                in_range(b as int),
        ;
    }
    let p: i64 = a * b;
    let q: i64 = if p >= 0 {
        p / SCALE
    } else {
        -((-p) / SCALE)
    };
    clamp(q)
}

/// Alternating Taylor series for `exp(-r/SCALE) * SCALE`, for `0 <= r < SCALE`,
/// evaluated exactly as the executable code does (truncating divisions).
pub open spec fn exp_frac_spec(r: int) -> int {
    let u1 = r;
    let u2 = r * r / (2 * SCALE as int);
    let u3 = u2 * r / (3 * SCALE as int);
    let u4 = u3 * r / (4 * SCALE as int);
    let u5 = u4 * r / (5 * SCALE as int);
    let u6 = u5 * r / (6 * SCALE as int);
    let acc = SCALE as int - u1 + u2 - u3 + u4 - u5 + u6;
    if acc < 0 {
        0
    } else if acc > SCALE as int {
        SCALE as int
    } else {
        acc
    }
}

/// Multiply `x` by `exp(-1)` (in fixed point) `k` times.
pub open spec fn exp_pow_spec(k: nat, x: int) -> int
    decreases k,
{
    if k == 0 {
        x
    } else {
        exp_pow_spec((k - 1) as nat, x * EXP_NEG_ONE / (SCALE as int))
    }
}

/// `exp(-u/SCALE) * SCALE` for `u >= 0`, with saturation to 0 past the cutoff.
pub open spec fn exp_neg_spec(u: int) -> int {
    if u >= SIGMOID_CUTOFF as int {
        0
    } else {
        exp_pow_spec((u / (SCALE as int)) as nat, exp_frac_spec(u % (SCALE as int)))
    }
}

/// Logistic sigmoid in fixed point: `SCALE / (1 + exp(-x/SCALE))`, exactly as
/// computed by [`sigmoid`]. Total over all of `int`.
pub open spec fn sigmoid_spec(x: int) -> int {
    if x >= 0 {
        let e = exp_neg_spec(x);
        (SCALE as int) * (SCALE as int) / (SCALE as int + e)
    } else {
        let e = exp_neg_spec(-x);
        SCALE as int - (SCALE as int) * (SCALE as int) / (SCALE as int + e)
    }
}

/// Rectified linear unit over the saturated scalar domain.
pub open spec fn relu_spec(x: int) -> int {
    if x < 0 {
        0
    } else {
        clamp_spec(x)
    }
}

proof fn lemma_exp_frac_range(r: int)
    requires
        0 <= r < SCALE as int,
    ensures
        0 <= exp_frac_spec(r) <= SCALE as int,
{
}

proof fn lemma_exp_pow_range(k: nat, x: int)
    requires
        0 <= x <= SCALE as int,
    ensures
        0 <= exp_pow_spec(k, x) <= SCALE as int,
    decreases k,
{
    if k > 0 {
        let y = x * EXP_NEG_ONE / (SCALE as int);
        assert(0 <= x * EXP_NEG_ONE <= (SCALE as int) * EXP_NEG_ONE) by (nonlinear_arith)
            requires
                0 <= x <= SCALE as int,
        ;
        lemma_exp_pow_range((k - 1) as nat, y);
    }
}

/// `exp_neg_spec` stays within `[0, SCALE]`.
pub proof fn lemma_exp_neg_range(u: int)
    requires
        u >= 0,
    ensures
        0 <= exp_neg_spec(u) <= SCALE as int,
{
    if u < SIGMOID_CUTOFF as int {
        let r = u % (SCALE as int);
        lemma_exp_frac_range(r);
        lemma_exp_pow_range((u / (SCALE as int)) as nat, exp_frac_spec(r));
    }
}

/// The sigmoid spec stays within `[0, SCALE]`.
pub proof fn lemma_sigmoid_range(x: int)
    ensures
        0 <= sigmoid_spec(x) <= SCALE as int,
{
    assert forall|e: int| 0 <= e <= SCALE as int implies {
        &&& 0 <= #[trigger] ((SCALE as int) * (SCALE as int) / (SCALE as int + e))
        &&& (SCALE as int) * (SCALE as int) / (SCALE as int + e) <= SCALE as int
    } by {
        assert(0 <= (SCALE as int) * (SCALE as int) / (SCALE as int + e) <= SCALE as int)
            by (nonlinear_arith)
            requires
                0 <= e <= SCALE as int,
        ;
    }
    if x >= 0 {
        lemma_exp_neg_range(x);
    } else {
        lemma_exp_neg_range(-x);
    }
}

/// `exp(-u/SCALE)` in fixed point, for nonnegative `u`.
fn exp_neg(u: i64) -> (r: i64)
    requires
        u >= 0,
    ensures
        r == exp_neg_spec(u as int),
        0 <= r <= SCALE,
{
    if u >= SIGMOID_CUTOFF {
        return 0;
    }
    let q: i64 = u / SCALE;
    let rem: i64 = u % SCALE;
    proof {
        assert forall|a: int, b: int|
            0 <= a <= SCALE as int && 0 <= b < SCALE as int implies {
            &&& 0 <= #[trigger] (a * b)
            &&& a * b <= (SCALE as int) * (SCALE as int)
        } by {
            assert(0 <= a * b && a * b <= (SCALE as int) * (SCALE as int)) by (nonlinear_arith)
                requires
                    0 <= a <= SCALE as int,
                    0 <= b < SCALE as int,
            ;
        }
    }
    let u1: i64 = rem;
    let u2: i64 = rem * rem / (2 * SCALE);
    let u3: i64 = u2 * rem / (3 * SCALE);
    let u4: i64 = u3 * rem / (4 * SCALE);
    let u5: i64 = u4 * rem / (5 * SCALE);
    let u6: i64 = u5 * rem / (6 * SCALE);
    let acc: i64 = SCALE - u1 + u2 - u3 + u4 - u5 + u6;
    let mut v: i64 = if acc < 0 {
        0
    } else if acc > SCALE {
        SCALE
    } else {
        acc
    };
    proof {
        lemma_exp_frac_range(rem as int);
    }
    let mut i: i64 = 0;
    while i < q
        invariant
            0 <= i <= q,
            q < 16,
            0 <= v <= SCALE,
            exp_pow_spec((q - i) as nat, v as int) == exp_neg_spec(u as int),
        decreases q - i,
    {
        v = v * EXP_NEG_ONE / SCALE;
        i = i + 1;
    }
    v
}

/// Logistic sigmoid over fixed-point scalars; result lies in `[0, SCALE]`.
pub fn sigmoid(x: i64) -> (r: i64)
    ensures
        r == sigmoid_spec(x as int),
        0 <= r <= SCALE,
{
    proof {
        assert forall|e: int| 0 <= e <= SCALE as int implies {
            &&& 0 <= #[trigger] ((SCALE as int) * (SCALE as int) / (SCALE as int + e))
            &&& (SCALE as int) * (SCALE as int) / (SCALE as int + e) <= SCALE as int
        } by {
            assert(0 <= (SCALE as int) * (SCALE as int) / (SCALE as int + e) <= SCALE as int)
                by (nonlinear_arith)
                requires
                    0 <= e <= SCALE as int,
            ;
        }
    }
    if x >= 0 {
        let e = exp_neg(x);
        SCALE * SCALE / (SCALE + e)
    } else if x <= -SIGMOID_CUTOFF {
        proof {
            assert(exp_neg_spec(-(x as int)) == 0);
        }
        SCALE - SCALE * SCALE / (SCALE + 0)
    } else {
        let e = exp_neg(-x);
        SCALE - SCALE * SCALE / (SCALE + e)
    }
}

/// Rectified linear unit.
pub fn relu(x: i64) -> (r: i64)
    ensures
        r == relu_spec(x as int),
        0 <= r <= BOUND,
{
    if x < 0 {
        0
    } else {
        clamp(x)
    }
}

} // verus!
