//! Rounding of a non-negative ratio to 53 significant bits, ties to even.
//!
//! Magnitudes are counted in units of the smallest positive binary64 number, so every finite
//! magnitude is a natural number and a number below `2^53` units needs no rounding at all.
use vstd::arithmetic::div_mod::*;
use vstd::arithmetic::mul::*;
use vstd::arithmetic::power2::*;
use vstd::prelude::*;

verus! {

/// `2^52`, the smallest significand of a normal number.
pub const MIN_NORMAL: u64 = 0x10_0000_0000_0000;

/// `2^53`, one more than the largest significand.
pub const SIGNIFICAND_END: u64 = 0x20_0000_0000_0000;

/// The natural number closest to `n / d`; of two equally close ones, the even one.
pub open spec fn nearest_even(n: nat, d: nat) -> nat
    recommends
        d > 0,
{
    let quotient = n / d;
    let twice_rest = 2 * (n % d);
    if twice_rest < d || (twice_rest == d && quotient % 2 == 0) {
        quotient
    } else {
        quotient + 1
    }
}

/// How many bits `m` has beyond the 53 that a significand holds.
pub open spec fn excess_bits(m: nat) -> nat
    decreases m,
{
    if m < SIGNIFICAND_END {
        0
    } else {
        1 + excess_bits(m / 2)
    }
}

/// The distance between two neighbouring representable magnitudes around `n / d`.
pub open spec fn spacing(n: nat, d: nat) -> nat {
    pow2(excess_bits(n / d))
}

/// `n / d` rounded to 53 significant bits, ties to even.
pub open spec fn round_ratio(n: nat, d: nat) -> nat {
    nearest_even(n, d * spacing(n, d)) * spacing(n, d)
}

pub proof fn lemma_pow2_constants()
    ensures
        pow2(0) == 1,
        pow2(1) == 2,
        pow2(2) == 4,
        pow2(52) == MIN_NORMAL,
        pow2(53) == SIGNIFICAND_END,
        pow2(54) == 2 * SIGNIFICAND_END,
{
    lemma2_to64();
    lemma2_to64_rest();
}

/// `excess_bits` is the binary logarithm that its name promises.
pub proof fn lemma_excess_bits_bounds(m: nat)
    ensures
        m < pow2(53 + excess_bits(m)),
        excess_bits(m) > 0 ==> pow2(52 + excess_bits(m)) <= m,
    decreases m,
{
    lemma_pow2_constants();
    if m >= SIGNIFICAND_END {
        let h = excess_bits(m / 2);
        lemma_excess_bits_bounds(m / 2);
        lemma_pow2_unfold(53 + h + 1);
        lemma_pow2_unfold(52 + h + 1);
    }
}

pub proof fn lemma_excess_bits_unique(m: nat, h: nat)
    requires
        m < pow2(53 + h),
        h > 0 ==> pow2(52 + h) <= m,
    ensures
        excess_bits(m) == h,
    decreases h,
{
    lemma_pow2_constants();
    if h > 0 {
        lemma_pow2_unfold(53 + h);
        lemma_pow2_unfold(52 + h);
        let g = (h - 1) as nat;
        assert(53 + g == 52 + h);
        if g == 0 {
            assert(pow2(53) <= m);
        } else {
            lemma_pow2_increases(53, 52 + h);
            assert(pow2(52 + g) <= m / 2);
        }
        lemma_excess_bits_unique(m / 2, g);
    }
}

pub proof fn lemma_pow2_increases(a: nat, b: nat)
    requires
        a <= b,
    ensures
        0 < pow2(a) <= pow2(b),
{
    lemma_pow2_pos(a);
    if a < b {
        lemma_pow2_strictly_increases(a, b);
    }
}

/// The excess of `n / d` is found by comparing `n` with multiples of `d`.
pub proof fn lemma_excess_bits_of_ratio(n: nat, d: nat, h: nat)
    requires
        d > 0,
        n < d * pow2(53 + h),
        h > 0 ==> d * pow2(52 + h) <= n,
    ensures
        excess_bits(n / d) == h,
{
    lemma_div_is_ordered_by_bound(n, d, pow2(53 + h));
    if h > 0 {
        lemma_div_is_at_least(n, d, pow2(52 + h));
    }
    lemma_excess_bits_unique(n / d, h);
}

pub proof fn lemma_excess_bits_of_ratio_bounds(n: nat, d: nat)
    requires
        d > 0,
    ensures
        n < d * pow2(53 + excess_bits(n / d)),
        excess_bits(n / d) > 0 ==> d * pow2(52 + excess_bits(n / d)) <= n,
{
    let h = excess_bits(n / d);
    lemma_excess_bits_bounds(n / d);
    lemma_fundamental_div_mod(n as int, d as int);
    let q = n / d;
    let top = pow2(53 + h);
    assert(d * (q + 1) <= d * top) by (nonlinear_arith)
        requires
            q + 1 <= top,
    ;
    assert(d * (q + 1) == d * q + d) by (nonlinear_arith);
    if h > 0 {
        let low = pow2(52 + h);
        assert(d * low <= n) by (nonlinear_arith)
            requires
                n == d * q + n % d,
                0 <= n % d,
                low <= q,
        ;
    }
}

proof fn lemma_div_is_ordered_by_bound(n: nat, d: nat, bound: nat)
    requires
        d > 0,
        n < d * bound,
    ensures
        n / d < bound,
{
    lemma_fundamental_div_mod(n as int, d as int);
    let q = n / d;
    assert(q < bound) by (nonlinear_arith)
        requires
            n == d * q + n % d,
            0 <= n % d,
            n < d * bound,
            d > 0,
    ;
}

proof fn lemma_div_is_at_least(n: nat, d: nat, bound: nat)
    requires
        d > 0,
        d * bound <= n,
    ensures
        bound <= n / d,
{
    lemma_fundamental_div_mod(n as int, d as int);
    let q = n / d;
    assert(bound <= q) by (nonlinear_arith)
        requires
            n == d * q + n % d,
            n % d < d,
            d * bound <= n,
            d > 0,
    ;
}

/// A common factor does not change which natural number is closest.
pub proof fn lemma_nearest_even_cancels(n: nat, d: nat, c: nat)
    requires
        d > 0,
        c > 0,
    ensures
        nearest_even(n * c, d * c) == nearest_even(n, d),
{
    let q = (n / d) as int;
    let r = (n % d) as int;
    lemma_fundamental_div_mod(n as int, d as int);
    assert(n * c == q * (d * c) + r * c && 0 <= r * c < d * c) by (nonlinear_arith)
        requires
            n == d * q + r,
            0 <= r < d,
            c > 0,
    ;
    lemma_fundamental_div_mod_converse((n * c) as int, (d * c) as int, q, r * c);
    assert(2 * (r * c) < d * c <==> 2 * r < d) by (nonlinear_arith)
        requires
            c > 0,
    ;
    assert(2 * (r * c) == d * c <==> 2 * r == d) by (nonlinear_arith)
        requires
            c > 0,
    ;
}

/// A common factor does not change a rounded ratio.
pub proof fn lemma_round_ratio_cancels(n: nat, d: nat, c: nat)
    requires
        d > 0,
        c > 0,
    ensures
        d * c > 0,
        excess_bits((n * c) / (d * c)) == excess_bits(n / d),
        round_ratio(n * c, d * c) == round_ratio(n, d),
{
    lemma_mul_strictly_positive(d as int, c as int);
    lemma_div_multiples_vanish_quotient(c as int, n as int, d as int);
    lemma_mul_is_commutative(n as int, c as int);
    lemma_mul_is_commutative(d as int, c as int);
    let q = spacing(n, d);
    lemma_pow2_pos(excess_bits(n / d));
    lemma_mul_strictly_positive(d as int, q as int);
    lemma_nearest_even_cancels(n, d * q, c);
    assert((d * c) * q == (d * q) * c) by (nonlinear_arith);
}

pub proof fn lemma_round_ratio_of_zero(d: nat)
    requires
        d > 0,
    ensures
        round_ratio(0, d) == 0,
{
    lemma_pow2_constants();
    lemma_basic_div(0, d as int);
    assert(spacing(0, d) == 1);
    lemma_mul_basics(d as int);
    lemma_small_mod(0, d);
}

/// Whether `t` stands for a number in `[f, f + 1)`: `f` itself where the number is `f`, and
/// otherwise the odd one of `f` and `f + 1`.
pub open spec fn rounds_to_odd(f: nat, exact: bool, t: nat) -> bool {
    if exact {
        t == f
    } else {
        (t == f || t == f + 1) && t % 2 == 1
    }
}

/// Rounding to odd at a quantum at least four times finer keeps the final rounding.
proof fn lemma_nearest_even_of_odd(n: nat, u: nat, f: nat, t: nat, d: nat)
    requires
        u > 0,
        d > 0,
        d % 4 == 0,
        f * u <= n < (f + 1) * u,
        rounds_to_odd(f, n == f * u, t),
    ensures
        nearest_even(n, u * d) == nearest_even(t, d),
{
    let a = (f / d) as int;
    let b = (f % d) as int;
    let c = n - f * u;
    lemma_fundamental_div_mod(f as int, d as int);
    assert((f + 1) * u == f * u + u) by (nonlinear_arith);
    assert(0 <= c < u);
    assert(n == a * (u * d) + (b * u + c) && 0 <= b * u + c < u * d) by (nonlinear_arith)
        requires
            n == f * u + c,
            f == d * a + b,
            0 <= b < d,
            0 <= c < u,
    ;
    lemma_fundamental_div_mod_converse(n as int, (u * d) as int, a, b * u + c);
    let b2 = t - d * a;
    assert(0 <= b2 < d) by {
        assert(d % 2 == 0);
        if t == f + 1 {
            assert(f % 2 == 0);
            assert((d * a) % 2 == 0) by {
                lemma_mul_mod_noop_left(d as int, a, 2);
            }
            assert(b % 2 == 0);
        }
    }
    lemma_mul_is_commutative(d as int, a);
    lemma_fundamental_div_mod_converse(t as int, d as int, a, b2);
    if c == 0 {
        assert(2 * (b * u) < u * d <==> 2 * b < d) by (nonlinear_arith)
            requires
                u > 0,
        ;
        assert(2 * (b * u) == u * d <==> 2 * b == d) by (nonlinear_arith)
            requires
                u > 0,
        ;
    } else {
        assert((d * a) % 2 == 0) by {
            lemma_mul_mod_noop_left(d as int, a, 2);
        }
        assert(b2 % 2 == 1);
        if 2 * b < d {
            assert(2 * b2 < d);
            assert(2 * (b * u + c) < u * d) by (nonlinear_arith)
                requires
                    2 * (b + 1) <= d,
                    0 < c < u,
            ;
        } else {
            assert(2 * b2 > d);
            assert(2 * (b * u + c) > u * d) by (nonlinear_arith)
                requires
                    2 * b >= d,
                    0 < c,
                    u > 0,
            ;
        }
    }
}

/// Rounding a ratio may start from its rounding to odd, scaled by `2^k / 2^bias`, as soon as
/// that has more than 54 bits.
pub proof fn lemma_round_ratio_of_odd(n: nat, d: nat, k: nat, bias: nat, f: nat, t: nat)
    requires
        d > 0,
        f >= 2 * SIGNIFICAND_END,
        f * (d * pow2(k)) <= n * pow2(bias) < (f + 1) * (d * pow2(k)),
        rounds_to_odd(f, n * pow2(bias) == f * (d * pow2(k)), t),
    ensures
        round_ratio(n, d) == round_ratio(t * pow2(k), pow2(bias)),
{
    lemma_pow2_constants();
    lemma_pow2_pos(k);
    lemma_pow2_pos(bias);
    let u = d * pow2(k);
    let e = d * pow2(bias);
    let m = n * pow2(bias);
    lemma_mul_strictly_positive(d as int, pow2(k) as int);
    lemma_round_ratio_cancels(n, d, pow2(bias));
    lemma_round_ratio_cancels(t * pow2(k), pow2(bias), d);
    assert(pow2(bias) * d == e) by (nonlinear_arith)
        requires
            e == d * pow2(bias),
    ;
    assert((t * pow2(k)) * d == t * u) by (nonlinear_arith)
        requires
            u == d * pow2(k),
    ;
    let h = excess_bits(m / e);
    lemma_excess_bits_of_ratio_bounds(m, e);
    assert(bias + h >= k + 2) by {
        if bias + h < k + 2 {
            lemma_pow2_increases(bias + 53 + h, 54 + k);
            lemma_pow2_adds(bias, 53 + h);
            lemma_pow2_adds(54, k);
            assert(e * pow2(53 + h) <= f * u) by (nonlinear_arith)
                requires
                    e == d * pow2(bias),
                    u == d * pow2(k),
                    pow2(bias) * pow2(53 + h) <= pow2(54) * pow2(k),
                    pow2(54) <= f,
            ;
        }
    }
    let j = (bias + h - k) as nat;
    let q = pow2(j);
    lemma_pow2_pos(j);
    lemma_pow2_adds(2, (j - 2) as nat);
    assert(q % 4 == 0);
    lemma_pow2_adds(bias, h);
    lemma_pow2_adds(k, j);
    assert(e * pow2(h) == u * q) by (nonlinear_arith)
        requires
            e == d * pow2(bias),
            u == d * pow2(k),
            pow2(bias) * pow2(h) == pow2(k) * q,
    ;
    lemma_nearest_even_of_odd(m, u, f, t, q);
    lemma_nearest_even_cancels(t, q, u);
    lemma_mul_is_commutative(q as int, u as int);
    assert(excess_bits((t * u) / e) == h) by {
        lemma_pow2_adds(53, h);
        lemma_pow2_adds(52, h);
        let end = q * pow2(53);
        assert(e * pow2(53 + h) == u * end) by (nonlinear_arith)
            requires
                e * pow2(h) == u * q,
                pow2(53 + h) == pow2(53) * pow2(h),
                end == q * pow2(53),
        ;
        assert(f < end) by (nonlinear_arith)
            requires
                f * u < u * end,
                u > 0,
        ;
        assert(end % 2 == 0);
        assert(t < end);
        assert(t * u < u * end) by (nonlinear_arith)
            requires
                t < end,
                u > 0,
        ;
        if h > 0 {
            let low = q * pow2(52);
            assert(e * pow2(52 + h) == u * low) by (nonlinear_arith)
                requires
                    e * pow2(h) == u * q,
                    pow2(52 + h) == pow2(52) * pow2(h),
                    low == q * pow2(52),
            ;
            assert(low < f + 1) by (nonlinear_arith)
                requires
                    u * low < (f + 1) * u,
                    u > 0,
            ;
            assert(u * low <= t * u) by (nonlinear_arith)
                requires
                    low <= t,
                    u > 0,
            ;
        }
        lemma_mul_strictly_positive(d as int, pow2(bias) as int);
        lemma_excess_bits_of_ratio(t * u, e, h);
    }
}

/// Whether a magnitude is a significand of 53 bits times a power of two.
pub open spec fn representable(m: nat) -> bool {
    m % pow2(excess_bits(m)) == 0
}

/// How far `m` is from `n / d`, times `d`.
pub open spec fn error(m: nat, n: nat, d: nat) -> nat {
    vstd::math::abs(m * d - n)
}

/// No multiple of `d` is closer to `n` than the one that `nearest_even` picks.
proof fn lemma_nearest_even_is_nearest(n: nat, d: nat, k: nat)
    requires
        d > 0,
    ensures
        error(nearest_even(n, d), n, d) <= error(k, n, d),
{
    let q = n / d;
    let r = n % d;
    lemma_fundamental_div_mod(n as int, d as int);
    lemma_mul_is_commutative(d as int, q as int);
    assert((q + 1) * d == q * d + d) by (nonlinear_arith);
    if k <= q {
        assert(k * d <= q * d) by (nonlinear_arith)
            requires
                k <= q,
        ;
    } else {
        assert((q + 1) * d <= k * d) by (nonlinear_arith)
            requires
                q + 1 <= k,
        ;
    }
}

proof fn lemma_representable_multiple(m: nat, h: nat)
    requires
        representable(m),
        h > 0 ==> pow2(52 + h) <= m,
    ensures
        m % pow2(h) == 0,
{
    lemma_pow2_constants();
    lemma_pow2_pos(h);
    if h > 0 {
        let g = excess_bits(m);
        lemma_excess_bits_bounds(m);
        if g < h {
            lemma_pow2_increases(53 + g, 52 + h);
        }
        lemma_pow2_adds(h, (g - h) as nat);
        let a = pow2(h) as int;
        let b = pow2((g - h) as nat) as int;
        lemma_pow2_pos(g);
        lemma_fundamental_div_mod(m as int, a * b);
        let q = m as int / (a * b);
        assert(m == (b * q) * a) by (nonlinear_arith)
            requires
                m == (a * b) * q,
        ;
        lemma_mod_multiples_basic(b * q, a);
    }
}

/// No representable magnitude is closer to `n / d` than the rounded one.
pub proof fn law_rounding_is_nearest(n: nat, d: nat, m: nat)
    requires
        d > 0,
        representable(m),
    ensures
        error(round_ratio(n, d), n, d) <= error(m, n, d),
{
    let h = excess_bits(n / d);
    let q = pow2(h);
    lemma_pow2_pos(h);
    lemma_mul_strictly_positive(d as int, q as int);
    lemma_excess_bits_of_ratio_bounds(n, d);
    let s = nearest_even(n, d * q);
    assert((s * q) * d == s * (d * q)) by (nonlinear_arith);
    if h > 0 && m < pow2(52 + h) {
        let low = pow2(52);
        lemma_pow2_adds(52, h);
        lemma_nearest_even_is_nearest(n, d * q, low);
        assert(low * (d * q) == d * pow2(52 + h)) by (nonlinear_arith)
            requires
                pow2(52 + h) == low * q,
        ;
        assert(m * d <= d * pow2(52 + h)) by (nonlinear_arith)
            requires
                m <= pow2(52 + h),
        ;
    } else {
        lemma_representable_multiple(m, h);
        lemma_fundamental_div_mod(m as int, q as int);
        let k = m / q;
        lemma_nearest_even_is_nearest(n, d * q, k);
        assert(k * (d * q) == m * d) by (nonlinear_arith)
            requires
                m == q * k,
        ;
    }
}

/// What is representable is not changed by rounding.
pub proof fn law_rounding_is_exact(m: nat, d: nat)
    requires
        d > 0,
        representable(m),
    ensures
        round_ratio(m * d, d) == m,
{
    law_rounding_is_nearest(m * d, d, m);
    let r = round_ratio(m * d, d);
    assert(r == m) by (nonlinear_arith)
        requires
            r * d == m * d,
            d > 0,
    ;
}

/// Rounding does not cross a representable magnitude.
pub proof fn law_rounding_keeps_bounds(n: nat, d: nat, m: nat)
    requires
        d > 0,
        representable(m),
    ensures
        m * d <= n ==> m <= round_ratio(n, d),
        n <= m * d ==> round_ratio(n, d) <= m,
{
    law_rounding_is_nearest(n, d, m);
    let r = round_ratio(n, d);
    if m * d <= n && r < m {
        assert(r * d < m * d) by (nonlinear_arith)
            requires
                r < m,
                d > 0,
        ;
    }
    if n <= m * d && m < r {
        assert(m * d < r * d) by (nonlinear_arith)
            requires
                m < r,
                d > 0,
        ;
    }
}

/// A significand of 53 bits times a power of two is representable.
pub proof fn lemma_scaled_is_representable(s: nat, h: nat)
    requires
        s <= SIGNIFICAND_END,
    ensures
        representable(s * pow2(h)),
{
    lemma_pow2_constants();
    lemma_pow2_pos(h);
    let m = s * pow2(h);
    if s == SIGNIFICAND_END {
        lemma_pow2_unfold(h + 1);
        assert(m == MIN_NORMAL as nat * pow2(h + 1)) by (nonlinear_arith)
            requires
                m == SIGNIFICAND_END as nat * pow2(h),
                pow2(h + 1) == 2 * pow2(h),
                SIGNIFICAND_END == 2 * MIN_NORMAL,
        ;
        lemma_scaled_is_representable_below_end(MIN_NORMAL as nat, h + 1);
    } else {
        lemma_scaled_is_representable_below_end(s, h);
    }
}

proof fn lemma_scaled_is_representable_below_end(s: nat, h: nat)
    requires
        s < SIGNIFICAND_END,
    ensures
        representable(s * pow2(h)),
{
    lemma_pow2_constants();
    lemma_pow2_pos(h);
    let m = s * pow2(h);
    let g = excess_bits(m);
    lemma_excess_bits_bounds(m);
    lemma_pow2_adds(53, h);
    assert(m < pow2(53 + h)) by (nonlinear_arith)
        requires
            m == s * pow2(h),
            s < pow2(53),
            pow2(53 + h) == pow2(53) * pow2(h),
            pow2(h) > 0,
    ;
    assert(g <= h) by {
        if g > h {
            lemma_pow2_increases(53 + h, 52 + g);
        }
    }
    lemma_pow2_pos(g);
    lemma_pow2_adds((h - g) as nat, g);
    let k = pow2((h - g) as nat) as int;
    assert(m == (s * k) * pow2(g)) by (nonlinear_arith)
        requires
            m == s * pow2(h),
            pow2(h) == k * pow2(g),
    ;
    lemma_mod_multiples_basic(s * k, pow2(g) as int);
}

/// The rounded magnitude is representable.
pub proof fn law_rounding_is_representable(n: nat, d: nat)
    requires
        d > 0,
    ensures
        representable(round_ratio(n, d)),
{
    lemma_pow2_constants();
    let h = excess_bits(n / d);
    let q = pow2(h);
    lemma_pow2_pos(h);
    lemma_mul_strictly_positive(d as int, q as int);
    lemma_excess_bits_of_ratio_bounds(n, d);
    lemma_pow2_adds(53, h);
    assert(n < (d * q) * pow2(53)) by (nonlinear_arith)
        requires
            n < d * pow2(53 + h),
            pow2(53 + h) == pow2(53) * q,
    ;
    lemma_div_is_ordered_by_bound(n, d * q, pow2(53));
    lemma_scaled_is_representable(nearest_even(n, d * q), h);
}

/// Rounding keeps the order of two ratios.
pub proof fn law_rounding_is_monotone(n1: nat, d1: nat, n2: nat, d2: nat)
    requires
        d1 > 0,
        d2 > 0,
        n1 * d2 <= n2 * d1,
    ensures
        round_ratio(n1, d1) <= round_ratio(n2, d2),
{
    let d = d1 * d2;
    lemma_round_ratio_cancels(n1, d1, d2);
    lemma_round_ratio_cancels(n2, d2, d1);
    lemma_mul_is_commutative(d1 as int, d2 as int);
    let a = n1 * d2;
    let b = n2 * d1;
    let r = round_ratio(a, d);
    let t = round_ratio(b, d);
    law_rounding_is_representable(a, d);
    law_rounding_is_representable(b, d);
    law_rounding_is_nearest(a, d, t);
    law_rounding_is_nearest(b, d, r);
    if t < r {
        assert(t * d < r * d) by (nonlinear_arith)
            requires
                t < r,
                d > 0,
        ;
    }
}

/// Of two natural numbers that are equally close, the even one is picked.
pub proof fn law_ties_go_to_even(n: nat, d: nat, k: nat)
    requires
        d > 0,
        2 * n == (2 * k + 1) * d,
    ensures
        nearest_even(n, d) % 2 == 0,
        nearest_even(n, d) == k || nearest_even(n, d) == k + 1,
{
    assert(n == k * d + (n - k * d) && 2 * (n - k * d) == d) by (nonlinear_arith)
        requires
            2 * n == (2 * k + 1) * d,
    ;
    lemma_fundamental_div_mod_converse(n as int, d as int, k as int, n - k * d);
}

/// A rounded ratio is off by at most half a unit or by at most one part in `2^53`.
pub proof fn law_rounding_error(n: nat, d: nat)
    requires
        d > 0,
    ensures
        2 * error(round_ratio(n, d), n, d) <= d || SIGNIFICAND_END * error(round_ratio(n, d), n, d)
            <= n,
{
    let h = excess_bits(n / d);
    let q = pow2(h);
    lemma_pow2_pos(h);
    lemma_pow2_constants();
    lemma_mul_strictly_positive(d as int, q as int);
    lemma_excess_bits_of_ratio_bounds(n, d);
    let e = d * q;
    let s = nearest_even(n, e);
    assert((s * q) * d == s * e) by (nonlinear_arith)
        requires
            e == d * q,
    ;
    lemma_fundamental_div_mod(n as int, e as int);
    lemma_mul_is_commutative(e as int, (n / e) as int);
    assert((n / e + 1) * e == (n / e) * e + e) by (nonlinear_arith);
    let err = error(round_ratio(n, d), n, d);
    assert(2 * err <= e);
    if h == 0 {
        assert(e == d) by (nonlinear_arith)
            requires
                e == d * q,
                q == 1,
        ;
    } else {
        lemma_pow2_adds(52, h);
        assert(MIN_NORMAL as nat * e <= n) by (nonlinear_arith)
            requires
                d * pow2(52 + h) <= n,
                pow2(52 + h) == MIN_NORMAL as nat * q,
                e == d * q,
        ;
    }
}

} // verus!
