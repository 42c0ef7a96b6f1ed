//! Fixed-point arithmetic in millionths.
//!
//! A value `v` of this module stands for the real number `v / SCALE`. The
//! logarithm and the power of two are computed by truncated series whose every
//! step rounds down; the spec functions below define exactly which integer
//! comes out, and the lemmas bound it.

use vstd::prelude::*;
use vstd::arithmetic::power2::{pow2, lemma_pow2_unfold, lemma_pow2_pos, lemma_pow2_strictly_increases, lemma2_to64};
use vstd::arithmetic::div_mod::{lemma_div_is_ordered, lemma_div_is_ordered_by_denominator, lemma_div_denominator, lemma_div_pos_is_pos};
use vstd::arithmetic::mul::{lemma_mul_upper_bound, lemma_mul_nonnegative};

verus! {

/// The fixed-point representation of 1.
pub const SCALE: u64 = 1_000_000;

/// The fixed-point representation of 1/2.
pub const HALF: u64 = 500_000;

/// ln 2 = 0.693147..., rounded down.
pub const LN_2: u64 = 693_147;

/// The Euler-Mascheroni constant 0.5772156649, rounded to the nearest millionth.
pub const EULER_GAMMA: u64 = 577_216;

/// Number of terms summed for the inverse hyperbolic tangent.
pub const ATANH_TERMS: u32 = 6;

/// Number of terms summed for the exponential.
pub const EXP_TERMS: u32 = 10;

/// The integer `k` with `2^k <= m < 2^(k+1)`, for `m >= 1`.
pub open spec fn spec_floor_log2(m: int) -> nat
    decreases m,
{
    if m < 2 {
        0
    } else {
        1 + spec_floor_log2(m / 2)
    }
}

/// `spec_floor_log2(m)` is the floor of the binary logarithm of `m`.
pub proof fn lemma_floor_log2_bounds(m: int)
    requires
        m >= 1,
    ensures
        pow2(spec_floor_log2(m)) <= m < 2 * pow2(spec_floor_log2(m)),
    decreases m,
{
    lemma2_to64();
    if m >= 2 {
        lemma_floor_log2_bounds(m / 2);
        lemma_pow2_unfold(spec_floor_log2(m));
    }
}

/// The floor of the binary logarithm is the only exponent whose power of two
/// brackets `m`.
pub proof fn lemma_floor_log2_unique(m: int, k: nat)
    requires
        m >= 1,
        pow2(k) <= m < 2 * pow2(k),
    ensures
        k == spec_floor_log2(m),
{
    let l = spec_floor_log2(m);
    lemma_floor_log2_bounds(m);
    if k < l {
        lemma_pow2_unfold(k + 1);
        if k + 1 < l {
            lemma_pow2_strictly_increases(k + 1, l);
        }
    } else if l < k {
        lemma_pow2_unfold(l + 1);
        if l + 1 < k {
            lemma_pow2_strictly_increases(l + 1, k);
        }
    }
}

/// The binary logarithm does not decrease when its argument grows.
pub proof fn lemma_floor_log2_monotone(a: int, b: int)
    requires
        1 <= a <= b,
    ensures
        spec_floor_log2(a) <= spec_floor_log2(b),
{
    let ka = spec_floor_log2(a);
    let kb = spec_floor_log2(b);
    lemma_floor_log2_bounds(a);
    lemma_floor_log2_bounds(b);
    if kb < ka {
        lemma_pow2_unfold(kb + 1);
        if kb + 1 < ka {
            lemma_pow2_strictly_increases(kb + 1, ka);
        }
    }
}

/// Floor of the binary logarithm of `m`, together with that power of two.
pub fn floor_log2(m: u64) -> (r: (u32, u64))
    requires
        m >= 1,
    ensures
        r.0 == spec_floor_log2(m as int),
        r.1 == pow2(r.0 as nat),
        r.1 <= m < 2 * r.1,
        r.0 <= 63,
{
    let mut k: u32 = 0;
    let mut p: u64 = 1;
    proof {
        lemma2_to64();
    }
    while p <= m / 2
        invariant
            p == pow2(k as nat),
            1 <= p <= m,
            k <= 63,
        decreases m - p,
    {
        proof {
            lemma_pow2_unfold((k + 1) as nat);
            if k == 63 {
                vstd::arithmetic::power2::lemma2_to64_rest();
            }
        }
        p = p * 2;
        k = k + 1;
    }
    proof {
        lemma_floor_log2_unique(m as int, k as nat);
    }
    (k, p)
}

/// `z^(2j+1)` for a fraction `z` in millionths, each product rounded down.
pub open spec fn odd_power(z: int, j: nat) -> int
    decreases j,
{
    if j == 0 {
        z
    } else {
        ((odd_power(z, (j - 1) as nat) * z / (SCALE as int)) * z) / (SCALE as int)
    }
}

/// The first `n` terms of `atanh z = z + z^3/3 + z^5/5 + ...`.
pub open spec fn atanh_series(z: int, n: nat) -> int
    decreases n,
{
    if n == 0 {
        0
    } else {
        atanh_series(z, (n - 1) as nat) + odd_power(z, (n - 1) as nat) / (2 * (n - 1) + 1)
    }
}

/// For `m` between `p = 2^k` and `2p`, the fraction `(m/p - 1) / (m/p + 1)`.
pub open spec fn atanh_argument(m: int) -> int {
    let p = pow2(spec_floor_log2(m)) as int;
    (m - p) * (SCALE as int) / (m + p)
}

/// The natural logarithm of the integer `m >= 1`, in millionths:
/// `k ln 2 + 2 atanh((y - 1) / (y + 1))` with `m = 2^k y` and `1 <= y < 2`.
pub open spec fn spec_ln(m: int) -> int {
    spec_floor_log2(m) * (LN_2 as int) + 2 * atanh_series(atanh_argument(m), ATANH_TERMS as nat)
}

/// A power of a fraction below one is a fraction no larger than it.
pub proof fn lemma_odd_power_bounds(z: int, j: nat)
    requires
        0 <= z <= SCALE,
    ensures
        0 <= odd_power(z, j) <= z,
    decreases j,
{
    if j > 0 {
        lemma_odd_power_bounds(z, (j - 1) as nat);
        let t = odd_power(z, (j - 1) as nat);
        let s = SCALE as int;
        lemma_scaled_product(t, z);
        let u = t * z / s;
        lemma_scaled_product(u, z);
    }
}

/// The product of two fractions, rescaled, is no larger than the first.
pub proof fn lemma_scaled_product(t: int, z: int)
    requires
        0 <= t,
        0 <= z <= SCALE,
    ensures
        0 <= t * z / (SCALE as int) <= t,
{
    let s = SCALE as int;
    lemma_mul_nonnegative(t, z);
    lemma_mul_upper_bound(t, t, z, s);
    lemma_div_pos_is_pos(t * z, s);
    lemma_div_is_ordered(t * z, t * s, s);
    assert(t * s / s == t) by (nonlinear_arith)
        requires
            s == 1_000_000,
    ;
}

/// The series lies between zero and `z (1 + 1/3 + 1/5 + 1/7 + 1/9 + 1/11)`.
pub proof fn lemma_atanh_series_bounds(z: int)
    requires
        0 <= z <= SCALE,
    ensures
        0 <= atanh_series(z, ATANH_TERMS as nat) <= z + z / 3 + z / 5 + z / 7 + z / 9 + z / 11,
{
    lemma_odd_power_bounds(z, 0);
    lemma_odd_power_bounds(z, 1);
    lemma_odd_power_bounds(z, 2);
    lemma_odd_power_bounds(z, 3);
    lemma_odd_power_bounds(z, 4);
    lemma_odd_power_bounds(z, 5);
    assert(atanh_series(z, 0) == 0);
    assert(atanh_series(z, 1) == atanh_series(z, 0) + odd_power(z, 0) / 1);
    assert(atanh_series(z, 2) == atanh_series(z, 1) + odd_power(z, 1) / 3);
    assert(atanh_series(z, 3) == atanh_series(z, 2) + odd_power(z, 2) / 5);
    assert(atanh_series(z, 4) == atanh_series(z, 3) + odd_power(z, 3) / 7);
    assert(atanh_series(z, 5) == atanh_series(z, 4) + odd_power(z, 4) / 9);
    assert(atanh_series(z, 6) == atanh_series(z, 5) + odd_power(z, 5) / 11);
}

/// The argument of the series is a fraction below one third.
pub proof fn lemma_atanh_argument_bounds(m: int)
    requires
        m >= 1,
    ensures
        0 <= atanh_argument(m) <= 333_333,
{
    lemma_floor_log2_bounds(m);
    let p = pow2(spec_floor_log2(m)) as int;
    let s = SCALE as int;
    assert(0 <= (m - p) * s / (m + p) <= 333_333) by (nonlinear_arith)
        requires
            1 <= p <= m < 2 * p,
            s == 1_000_000,
    ;
}

/// The logarithm lies between `k ln 2` and `k ln 2 + 1.253`, where `k` is the
/// floor of the binary logarithm.
pub proof fn lemma_ln_bounds(m: int)
    requires
        m >= 1,
    ensures
        spec_floor_log2(m) * (LN_2 as int) <= spec_ln(m) <= spec_floor_log2(m) * (LN_2 as int)
            + 1_253_000,
{
    let z = atanh_argument(m);
    lemma_atanh_argument_bounds(m);
    lemma_atanh_series_bounds(z);
    let a = atanh_series(z, ATANH_TERMS as nat);
    assert(0 <= a <= 626_500);
    let k = spec_floor_log2(m) * (LN_2 as int);
    assert(spec_ln(m) == k + 2 * a);
}

/// The series of zero is zero.
pub proof fn lemma_atanh_series_of_zero(n: nat)
    ensures
        odd_power(0, n) == 0,
        atanh_series(0, n) == 0,
    decreases n,
{
    if n > 0 {
        lemma_atanh_series_of_zero((n - 1) as nat);
    }
}

/// The logarithm of a power of two is that many times `ln 2`, exactly.
pub proof fn lemma_ln_power_of_two(k: nat)
    ensures
        spec_ln(pow2(k) as int) == k * LN_2,
{
    lemma_pow2_pos(k);
    lemma_floor_log2_unique(pow2(k) as int, k);
    lemma_atanh_series_of_zero(ATANH_TERMS as nat);
    assert(atanh_argument(pow2(k) as int) == 0);
}

/// The logarithm of one is zero.
pub proof fn lemma_ln_one()
    ensures
        spec_ln(1) == 0,
{
    lemma2_to64();
    lemma_ln_power_of_two(0);
}

/// Natural logarithm of `m`, in millionths.
pub fn ln_fixed(m: u64) -> (r: u64)
    requires
        m >= 1,
    ensures
        r == spec_ln(m as int),
        r <= 45_000_000,
{
    let (k, p): (u32, u64) = floor_log2(m);
    let excess: u128 = (m - p) as u128;
    assert(excess * SCALE <= u64::MAX * 1_000_000) by (nonlinear_arith)
        requires
            0 <= excess <= u64::MAX,
            SCALE == 1_000_000,
    ;
    let z: u128 = excess * (SCALE as u128) / ((m as u128) + (p as u128));
    proof {
        lemma_atanh_argument_bounds(m as int);
        lemma_atanh_series_bounds(z as int);
    }
    let mut term: u128 = z;
    let mut sum: u128 = 0;
    let mut j: u32 = 0;
    while j < ATANH_TERMS
        invariant
            0 <= j <= ATANH_TERMS,
            z <= 333_333,
            term == odd_power(z as int, j as nat),
            sum == atanh_series(z as int, j as nat),
            sum <= j * 333_333,
        decreases ATANH_TERMS - j,
    {
        proof {
            lemma_odd_power_bounds(z as int, j as nat);
            lemma_scaled_product(term as int, z as int);
            let u = (term as int) * (z as int) / (SCALE as int);
            lemma_scaled_product(u, z as int);
            assert(term * z <= 333_333 * 333_333) by (nonlinear_arith)
                requires
                    0 <= term <= 333_333,
                    0 <= z <= 333_333,
            ;
            assert(u * z <= 333_333 * 333_333) by (nonlinear_arith)
                requires
                    0 <= u <= 333_333,
                    0 <= z <= 333_333,
            ;
        }
        sum = sum + term / ((2 * j + 1) as u128);
        term = (term * z / (SCALE as u128)) * z / (SCALE as u128);
        j = j + 1;
    }
    ((k as u64) * LN_2 + 2 * (sum as u64))
}

/// The expected path length `c(n)` of an unsuccessful search in a random binary
/// tree of `n` nodes: `2 (ln(n - 1) + gamma) - 2 (n - 1) / n` for `n > 1`, and
/// zero otherwise.
pub open spec fn spec_average_path(n: int) -> int {
    if n <= 1 {
        0
    } else {
        2 * (spec_ln(n - 1) + (EULER_GAMMA as int)) - 2 * (n - 1) * (SCALE as int) / n
    }
}

/// Twice the fraction `(n - 1) / n` lies between one and two.
pub proof fn lemma_twice_fraction(n: int)
    requires
        n >= 2,
    ensures
        SCALE <= 2 * (n - 1) * (SCALE as int) / n <= 2 * SCALE,
{
    let s = SCALE as int;
    assert(s <= 2 * (n - 1) * s / n <= 2 * s) by (nonlinear_arith)
        requires
            n >= 2,
            s == 1_000_000,
    ;
}

/// Bounds of `c(n)` in terms of `k`, the floor of the binary logarithm of
/// `n - 1`: it is at least 0.154, at least `2 k ln 2 - 0.846`, and at most
/// `2 k ln 2 + 2.661`.
pub proof fn lemma_average_path_bounds(n: int)
    requires
        n >= 2,
    ensures
        spec_average_path(n) >= 154_432,
        spec_average_path(n) >= 2 * spec_floor_log2(n - 1) * (LN_2 as int) - 845_568,
        spec_average_path(n) <= 2 * spec_floor_log2(n - 1) * (LN_2 as int) + 2_660_432,
        n == 2 ==> spec_average_path(n) == 154_432,
{
    lemma_twice_fraction(n);
    lemma_ln_bounds(n - 1);
    let k = spec_floor_log2(n - 1);
    if n == 2 {
        lemma_ln_one();
        assert(2 * (n - 1) * (SCALE as int) / n == 1_000_000);
    } else {
        lemma_floor_log2_monotone(2, n - 1);
        assert(spec_floor_log2(2) == 1) by {
            reveal_with_fuel(spec_floor_log2, 3);
        }
        assert(k * (LN_2 as int) >= 693_147) by (nonlinear_arith)
            requires
                k >= 1,
                LN_2 == 693_147,
        ;
    }
}

/// `c(n)` is never negative and stays below 91.
pub proof fn lemma_average_path_magnitude(n: int)
    requires
        n <= u64::MAX,
    ensures
        0 <= spec_average_path(n) <= 91_000_000,
{
    if n >= 2 {
        lemma_average_path_bounds(n);
        lemma_floor_log2_monotone(n - 1, u64::MAX as int);
        lemma2_to64();
        vstd::arithmetic::power2::lemma2_to64_rest();
        lemma_floor_log2_unique(u64::MAX as int, 63);
        let k = spec_floor_log2(n - 1);
        assert(k * (LN_2 as int) <= 63 * 693_147) by (nonlinear_arith)
            requires
                k <= 63,
                LN_2 == 693_147,
        ;
    }
}

/// In a tree built from `sample` points under the depth limit
/// `floor(log2(sample - 1)) + 1`, every path length `depth + c(size)` stays
/// below `19 c(sample)`.
pub proof fn lemma_path_ratio(sample: int, depth: int, size: int)
    requires
        2 <= sample,
        0 <= depth <= spec_floor_log2(sample - 1) + 1,
        0 <= size <= sample,
    ensures
        0 <= depth * SCALE + spec_average_path(size) < 19 * spec_average_path(sample),
{
    let k = spec_floor_log2(sample - 1);
    let kl = k * (LN_2 as int);
    assert(kl == 693_147 * k) by (nonlinear_arith)
        requires
            kl == k * (LN_2 as int),
            LN_2 == 693_147,
    ;
    lemma_average_path_bounds(sample);
    if sample >= 3 {
        // at least one doubling fits below the sample size
        lemma_floor_log2_monotone(2, sample - 1);
        assert(spec_floor_log2(2) == 1) by {
            reveal_with_fuel(spec_floor_log2, 3);
        }
    }
    if size >= 2 {
        lemma_average_path_bounds(size);
        lemma_floor_log2_monotone(size - 1, sample - 1);
        let j = spec_floor_log2(size - 1);
        let jl = j * (LN_2 as int);
        assert(jl == 693_147 * j) by (nonlinear_arith)
            requires
                jl == j * (LN_2 as int),
                LN_2 == 693_147,
        ;
    }
}

/// `c(n)`, in millionths.
pub fn average_path_length(n: u64) -> (r: u64)
    ensures
        r == spec_average_path(n as int),
{
    if n <= 1 {
        0
    } else {
        proof {
            lemma_average_path_bounds(n as int);
            lemma_twice_fraction(n as int);
        }
        let l: u64 = ln_fixed(n - 1);
        let twice: u128 = 2 * ((n - 1) as u128);
        assert(twice * SCALE <= 2 * u64::MAX * 1_000_000) by (nonlinear_arith)
            requires
                0 <= twice <= 2 * u64::MAX,
                SCALE == 1_000_000,
        ;
        let fraction: u128 = twice * (SCALE as u128) / (n as u128);
        2 * (l + EULER_GAMMA) - (fraction as u64)
    }
}

/// The `i`-th term `u^i / i!` of the exponential series, each step rounded down.
pub open spec fn exp_term(u: int, i: nat) -> int
    decreases i,
{
    if i == 0 {
        SCALE as int
    } else {
        exp_term(u, (i - 1) as nat) * u / (i * (SCALE as int))
    }
}

/// The first `n` terms of `e^u = 1 + u + u^2/2! + ...`.
pub open spec fn exp_series(u: int, n: nat) -> int
    decreases n,
{
    if n == 0 {
        0
    } else {
        exp_series(u, (n - 1) as nat) + exp_term(u, (n - 1) as nat)
    }
}

/// `2^(-x)` for `x >= 0` in millionths. With `x = k + f`, `k` whole and
/// `0 <= f < 1`: exactly `2^(-k)` when `f` is zero, and otherwise
/// `e^((1 - f) ln 2) / 2^(k + 1)`.
pub open spec fn spec_exp2_neg(x: int) -> int {
    let k = (x / (SCALE as int)) as nat;
    let f = x % (SCALE as int);
    if f == 0 {
        (SCALE as int) / (pow2(k) as int)
    } else {
        exp_series((SCALE - f) * (LN_2 as int) / (SCALE as int), EXP_TERMS as nat) / (pow2(k + 1) as int)
    }
}

/// A term of the series does not decrease when its argument grows.
pub proof fn lemma_exp_term_monotone(u: int, v: int, i: nat)
    requires
        0 <= u <= v,
    ensures
        0 <= exp_term(u, i) <= exp_term(v, i),
    decreases i,
{
    if i > 0 {
        lemma_exp_term_monotone(u, v, (i - 1) as nat);
        let a = exp_term(u, (i - 1) as nat);
        let b = exp_term(v, (i - 1) as nat);
        let d = i * (SCALE as int);
        lemma_mul_nonnegative(a, u);
        lemma_mul_upper_bound(a, b, u, v);
        lemma_div_pos_is_pos(a * u, d);
        lemma_div_is_ordered(a * u, b * v, d);
    }
}

/// The series does not decrease when its argument grows, and starts at one.
pub proof fn lemma_exp_series_monotone(u: int, v: int, n: nat)
    requires
        0 <= u <= v,
    ensures
        exp_series(u, n) <= exp_series(v, n),
        n >= 1 ==> exp_series(u, n) >= SCALE,
    decreases n,
{
    if n > 0 {
        lemma_exp_series_monotone(u, v, (n - 1) as nat);
        lemma_exp_term_monotone(u, v, (n - 1) as nat);
    }
}

/// The series evaluated at `ln 2` stays below two.
pub proof fn lemma_exp_series_at_ln2()
    ensures
        exp_series(LN_2 as int, EXP_TERMS as nat) == 1_999_995,
{
    let u = LN_2 as int;
    let s = SCALE as int;
    assert(exp_term(u, 0) == 1_000_000);
    assert(exp_term(u, 1) == 693_147) by {
        assert(1_000_000 * u / (1 * s) == 693_147) by (nonlinear_arith)
            requires
                u == 693_147,
                s == 1_000_000,
        ;
    }
    assert(exp_term(u, 2) == 240_226) by {
        assert(693_147 * u / (2 * s) == 240_226) by (nonlinear_arith)
            requires
                u == 693_147,
                s == 1_000_000,
        ;
    }
    assert(exp_term(u, 3) == 55_503) by {
        assert(240_226 * u / (3 * s) == 55_503) by (nonlinear_arith)
            requires
                u == 693_147,
                s == 1_000_000,
        ;
    }
    assert(exp_term(u, 4) == 9_617) by {
        assert(55_503 * u / (4 * s) == 9_617) by (nonlinear_arith)
            requires
                u == 693_147,
                s == 1_000_000,
        ;
    }
    assert(exp_term(u, 5) == 1_333) by {
        assert(9_617 * u / (5 * s) == 1_333) by (nonlinear_arith)
            requires
                u == 693_147,
                s == 1_000_000,
        ;
    }
    assert(exp_term(u, 6) == 153) by {
        assert(1_333 * u / (6 * s) == 153) by (nonlinear_arith)
            requires
                u == 693_147,
                s == 1_000_000,
        ;
    }
    assert(exp_term(u, 7) == 15) by {
        assert(153 * u / (7 * s) == 15) by (nonlinear_arith)
            requires
                u == 693_147,
                s == 1_000_000,
        ;
    }
    assert(exp_term(u, 8) == 1) by {
        assert(15 * u / (8 * s) == 1) by (nonlinear_arith)
            requires
                u == 693_147,
                s == 1_000_000,
        ;
    }
    assert(exp_term(u, 9) == 0) by {
        assert(1 * u / (9 * s) == 0) by (nonlinear_arith)
            requires
                u == 693_147,
                s == 1_000_000,
        ;
    }
    reveal_with_fuel(exp_series, 11);
}

/// For `0 <= u <= ln 2` the series lies between one and two.
pub proof fn lemma_exp_series_bounds(u: int)
    requires
        0 <= u <= LN_2,
    ensures
        SCALE <= exp_series(u, EXP_TERMS as nat) <= 2 * SCALE,
{
    lemma_exp_series_monotone(u, LN_2 as int, EXP_TERMS as nat);
    lemma_exp_series_at_ln2();
}

/// `2^(-x)` is a fraction in `[0, 1]`, and positive while `x < 19`.
pub proof fn lemma_exp2_neg_bounds(x: int)
    requires
        x >= 0,
    ensures
        0 <= spec_exp2_neg(x) <= SCALE,
        x < 19 * SCALE ==> spec_exp2_neg(x) >= 1,
{
    let s = SCALE as int;
    let k = (x / s) as nat;
    let f = x % s;
    lemma_pow2_pos(k);
    lemma_pow2_pos(k + 1);
    lemma_pow2_unfold(k + 1);
    lemma2_to64();
    if x < 19 * s {
        assert(k <= 18);
        if k < 18 {
            lemma_pow2_strictly_increases(k, 18);
        }
    }
    if f == 0 {
        lemma_div_pos_is_pos(s, pow2(k) as int);
        lemma_div_is_ordered_by_denominator(s, 1, pow2(k) as int);
        if x < 19 * s {
            lemma_div_is_ordered_by_denominator(s, pow2(k) as int, pow2(18) as int);
        }
    } else {
        let u = (s - f) * (LN_2 as int) / s;
        assert(0 <= u <= LN_2) by (nonlinear_arith)
            requires
                0 < f < s,
                s == 1_000_000,
                u == (s - f) * (LN_2 as int) / s,
                LN_2 == 693_147,
        ;
        lemma_exp_series_bounds(u);
        let e = exp_series(u, EXP_TERMS as nat);
        let d = pow2(k + 1) as int;
        lemma_div_pos_is_pos(e, d);
        lemma_div_is_ordered(e, 2 * s, d);
        lemma_div_is_ordered_by_denominator(2 * s, 2, d);
        if x < 19 * s {
            lemma_div_is_ordered(s, e, d);
            lemma_div_is_ordered_by_denominator(s, d, pow2(19) as int);
        }
    }
}

/// With `k` whole and `0 < f < 1`, `2^(-(k + f))` lies between `2^(-(k + 1))`
/// and `2^(-k)`.
pub proof fn lemma_exp2_neg_between(x: int)
    requires
        x >= 0,
    ensures
        (SCALE as int) / (pow2((x / (SCALE as int) + 1) as nat) as int) <= spec_exp2_neg(x) <= (
        SCALE as int) / (pow2((x / (SCALE as int)) as nat) as int),
{
    let s = SCALE as int;
    let k = (x / s) as nat;
    let f = x % s;
    lemma_pow2_pos(k);
    lemma_pow2_pos(k + 1);
    lemma_pow2_unfold(k + 1);
    if f == 0 {
        lemma_div_is_ordered_by_denominator(s, pow2(k) as int, pow2(k + 1) as int);
    } else {
        let u = (s - f) * (LN_2 as int) / s;
        assert(0 <= u <= LN_2) by (nonlinear_arith)
            requires
                0 < f < s,
                s == 1_000_000,
                u == (s - f) * (LN_2 as int) / s,
                LN_2 == 693_147,
        ;
        lemma_exp_series_bounds(u);
        let e = exp_series(u, EXP_TERMS as nat);
        let d = pow2(k + 1) as int;
        lemma_div_is_ordered(s, e, d);
        lemma_div_is_ordered(e, 2 * s, d);
        // 2 / 2^(k + 1) is 1 / 2^k
        lemma_div_denominator(2 * s, 2, pow2(k) as int);
        assert(2 * pow2(k) == pow2(k) * 2);
    }
}

/// `2^(-x)` does not increase when `x` grows.
pub proof fn lemma_exp2_neg_monotone(x: int, y: int)
    requires
        0 <= x <= y,
    ensures
        spec_exp2_neg(y) <= spec_exp2_neg(x),
{
    let s = SCALE as int;
    let kx = (x / s) as nat;
    let ky = (y / s) as nat;
    let fx = x % s;
    let fy = y % s;
    lemma_div_is_ordered(x, y, s);
    lemma_exp2_neg_between(x);
    lemma_exp2_neg_between(y);
    lemma_pow2_pos(kx);
    lemma_pow2_pos(ky);
    lemma_pow2_pos(kx + 1);
    if kx < ky {
        if kx + 1 < ky {
            lemma_pow2_strictly_increases(kx + 1, ky);
        }
        lemma_div_is_ordered_by_denominator(s, pow2(kx + 1) as int, pow2(ky) as int);
    } else if fx != 0 {
        assert(fx <= fy) by {
            vstd::arithmetic::div_mod::lemma_fundamental_div_mod(x, s);
            vstd::arithmetic::div_mod::lemma_fundamental_div_mod(y, s);
        }
        let ux = (s - fx) * (LN_2 as int) / s;
        let uy = (s - fy) * (LN_2 as int) / s;
        assert(0 <= uy <= ux) by (nonlinear_arith)
            requires
                0 < fx <= fy < s,
                s == 1_000_000,
                ux == (s - fx) * (LN_2 as int) / s,
                uy == (s - fy) * (LN_2 as int) / s,
                LN_2 == 693_147,
        ;
        lemma_exp_series_monotone(uy, ux, EXP_TERMS as nat);
        lemma_div_is_ordered(
            exp_series(uy, EXP_TERMS as nat),
            exp_series(ux, EXP_TERMS as nat),
            pow2(kx + 1) as int,
        );
    }
}

/// `2^(-1)` is exactly one half.
pub proof fn lemma_exp2_neg_one()
    ensures
        spec_exp2_neg(SCALE as int) == HALF,
{
    let s = SCALE as int;
    lemma2_to64();
    assert(s / s == 1 && s % s == 0);
    assert(pow2(1) == 2);
    assert(s / 2 == 500_000);
}

/// `2^(-x)`, in millionths.
pub fn exp2_neg(x: u64) -> (r: u64)
    ensures
        r == spec_exp2_neg(x as int),
        r <= SCALE,
        x < 19 * SCALE ==> r >= 1,
{
    proof {
        lemma_exp2_neg_bounds(x as int);
    }
    let k: u64 = x / SCALE;
    let f: u64 = x % SCALE;
    if f == 0 {
        halve(SCALE, k)
    } else {
        let u: u64 = (SCALE - f) * LN_2 / SCALE;
        assert(0 <= u <= LN_2) by (nonlinear_arith)
            requires
                0 < f < SCALE,
                SCALE == 1_000_000,
                u == (SCALE - f) * (LN_2 as int) / (SCALE as int),
                LN_2 == 693_147,
        ;
        let mut term: u64 = SCALE;
        let mut sum: u64 = 0;
        let mut i: u32 = 0;
        while i < EXP_TERMS
            invariant
                0 <= i <= EXP_TERMS,
                0 <= u <= LN_2,
                term == exp_term(u as int, i as nat),
                sum == exp_series(u as int, i as nat),
                sum <= i * SCALE,
            decreases EXP_TERMS - i,
        {
            proof {
                lemma_exp_term_bound(u as int, i as nat);
                lemma_exp_term_bound(u as int, (i + 1) as nat);
                assert(term * u <= 1_000_000 * 693_147) by (nonlinear_arith)
                    requires
                        0 <= term <= 1_000_000,
                        0 <= u <= 693_147,
                ;
            }
            sum = sum + term;
            term = term * u / (((i + 1) as u64) * SCALE);
            i = i + 1;
        }
        proof {
            lemma_exp_series_bounds(u as int);
        }
        halve(sum, k + 1)
    }
}

/// Every term of the series for an argument below one is at most one.
pub proof fn lemma_exp_term_bound(u: int, i: nat)
    requires
        0 <= u <= SCALE,
    ensures
        0 <= exp_term(u, i) <= SCALE,
    decreases i,
{
    if i > 0 {
        lemma_exp_term_bound(u, (i - 1) as nat);
        let a = exp_term(u, (i - 1) as nat);
        let s = SCALE as int;
        let d = i * s;
        lemma_scaled_product(a, u);
        lemma_mul_nonnegative(a, u);
        lemma_div_pos_is_pos(a * u, d);
        lemma_div_is_ordered_by_denominator(a * u, s, d);
    }
}

/// `v / 2^k`, rounded down.
pub fn halve(v: u64, k: u64) -> (r: u64)
    ensures
        r == (v as int) / (pow2(k as nat) as int),
{
    let mut r: u64 = v;
    let mut i: u64 = 0;
    proof {
        lemma2_to64();
    }
    while i < k && r > 0
        invariant
            0 <= i <= k,
            r == (v as int) / (pow2(i as nat) as int),
        decreases k - i,
    {
        proof {
            lemma_pow2_pos(i as nat);
            lemma_pow2_unfold((i + 1) as nat);
            lemma_div_denominator(v as int, pow2(i as nat) as int, 2);
            assert(pow2(i as nat) * 2 == 2 * pow2(i as nat));
        }
        r = r / 2;
        i = i + 1;
    }
    proof {
        if i < k {
            lemma_pow2_pos(i as nat);
            lemma_pow2_pos(k as nat);
            lemma_pow2_strictly_increases(i as nat, k as nat);
            lemma_div_is_ordered_by_denominator(v as int, pow2(i as nat) as int, pow2(k as nat) as int);
            lemma_div_pos_is_pos(v as int, pow2(k as nat) as int);
        }
    }
    r
}

} // verus!
