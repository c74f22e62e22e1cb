//! How close the quantities of an execution are to the exact ones.
//!
//! Exact quantities are ratios of natural numbers. A bound is stated without division: that `r`
//! is at most `n / d`, up to one part in `2^53`, is `r * d * 2^53 <= n * (2^53 + 1)`.
use crate::binary64::{
    law_of_u64_is_finite, law_small_integers_are_exact, law_whole_part_is_the_floor, one_in_units,
    Double, Value, END_EXPONENT, UNIT_EXPONENT,
};
use crate::rounding::{
    law_rounding_error, law_rounding_is_exact, law_rounding_is_monotone,
    law_rounding_keeps_bounds, lemma_pow2_constants, lemma_round_ratio_cancels,
    lemma_round_ratio_of_zero, lemma_scaled_is_representable, representable, round_ratio,
    SIGNIFICAND_END,
};
use crate::vwap::{
    elapsed_fraction, extrapolated_volume, law_weight_left_is_no_less_than_the_bins, suffix_weight,
    volume_ratio, weights_are_not_negative, SchedulerModel, BIN_DURATION_SECS,
};
use vstd::arithmetic::div_mod::*;
use vstd::arithmetic::mul::*;
use vstd::arithmetic::power2::*;
use vstd::prelude::*;

verus! {

/// One part in this many is the most that a rounding is off.
pub open spec fn parts() -> nat {
    SIGNIFICAND_END as nat
}

/// A rounding is off by at most one part in `2^53` and one unit.
#[verifier::spinoff_prover]
proof fn lemma_rounding_is_close(n: nat, d: nat)
    requires
        d > 0,
    ensures
        round_ratio(n, d) * d * parts() <= n * (parts() + 1) + d * parts(),
        round_ratio(n, d) * d * parts() + d * parts() + n >= n * parts(),
        n == 0 || d * parts() <= 2 * n ==> {
            &&& round_ratio(n, d) * d * parts() <= n * (parts() + 1)
            &&& round_ratio(n, d) * d * parts() + n >= n * parts()
        },
{
    law_rounding_error(n, d);
    let b = parts();
    let x = (round_ratio(n, d) * d) as int;
    let m = n as int;
    if n == 0 {
        lemma_round_ratio_of_zero(d);
    }
    assert(x * b - m * b == (x - m) * b) by (nonlinear_arith);
    assert(m * (b + 1) == m * b + m) by (nonlinear_arith);
    let err = vstd::math::abs(x - m) as int;
    if 2 * err <= d {
        assert((x - m) * b <= err * b && (m - x) * b <= err * b && 2 * (err * b) <= d * b)
            by (nonlinear_arith)
            requires
                x - m <= err,
                m - x <= err,
                2 * err <= d,
                b >= 0,
        ;
        assert((m - x) * b == m * b - x * b) by (nonlinear_arith);
        assert(d * b >= 0) by (nonlinear_arith);
    } else {
        assert((x - m) * b <= err * b && (m - x) * b <= err * b) by (nonlinear_arith)
            requires
                x - m <= err,
                m - x <= err,
                b >= 0,
        ;
        assert((m - x) * b == m * b - x * b) by (nonlinear_arith);
        assert(b * err == err * b) by (nonlinear_arith);
        assert(d * b >= 0) by (nonlinear_arith);
    }
}

/// `a * c <= b * c` without the common factor.
#[verifier::spinoff_prover]
proof fn lemma_cancel(a: int, b: int, c: int)
    requires
        a * c <= b * c,
        c > 0,
    ensures
        a <= b,
{
    lemma_mul_inequality_converse(a, b, c);
}

/// `a <= b` times a common factor.
#[verifier::spinoff_prover]
proof fn lemma_scale(a: int, b: int, c: int)
    requires
        a <= b,
        c >= 0,
    ensures
        a * c <= b * c,
{
    lemma_mul_inequality(a, b, c);
}

#[verifier::spinoff_prover]
proof fn lemma_extrapolated_at_most(v: int, f: int, x: int, raw: int, s: int, one: int, b: int, w: int)
    requires
        b >= 5,
        one > 0,
        0 <= v,
        0 <= s,
        0 <= raw,
        v * f * b <= x * one * (b + 1),
        x * b <= raw * one * (b + 1),
        s * (b - 1) <= 300 * f * b,
        w * one <= v,
    ensures
        w * s * b <= 300 * raw * one * (b + 4),
{
    let y = 300 * raw * one;
    let k = s * (b - 1) * b;
    assert(k >= 0 && y >= 0 && b * (b - 1) > 0) by (nonlinear_arith)
        requires
            k == s * (b - 1) * b,
            y == 300 * raw * one,
            s >= 0,
            raw >= 0,
            one > 0,
            b >= 5,
    ;
    let vb = v * b;
    assert(vb >= 0) by (nonlinear_arith)
        requires
            vb == v * b,
            v >= 0,
            b >= 5,
    ;
    lemma_scale(s * (b - 1), 300 * f * b, vb);
    // v * s * (b - 1) * b <= 300 * v * f * b * b
    assert(s * (b - 1) * vb == v * k) by (nonlinear_arith)
        requires
            vb == v * b,
            k == s * (b - 1) * b,
    ;
    assert(300 * f * b * vb == v * f * b * (300 * b)) by (nonlinear_arith)
        requires
            vb == v * b,
    ;
    lemma_scale(v * f * b, x * one * (b + 1), 300 * b);
    // ... <= 300 * x * b * one * (b + 1)
    let c = 300 * one * (b + 1);
    assert(c >= 0) by (nonlinear_arith)
        requires
            c == 300 * one * (b + 1),
            one > 0,
            b >= 5,
    ;
    assert(x * one * (b + 1) * (300 * b) == x * b * c) by (nonlinear_arith)
        requires
            c == 300 * one * (b + 1),
    ;
    lemma_scale(x * b, raw * one * (b + 1), c);
    assert(raw * one * (b + 1) * c == y * ((b + 1) * (b + 1)) * one) by (nonlinear_arith)
        requires
            c == 300 * one * (b + 1),
            y == 300 * raw * one,
    ;
    lemma_scale(w * one, v, k);
    assert(w * one * k == (w * k) * one) by (nonlinear_arith);
    assert(v * k <= y * ((b + 1) * (b + 1)) * one);
    lemma_cancel(w * k, y * ((b + 1) * (b + 1)), one);
    assert((b + 1) * (b + 1) <= (b + 4) * (b - 1)) by (nonlinear_arith)
        requires
            b >= 5,
    ;
    lemma_mul_inequality((b + 1) * (b + 1), (b + 4) * (b - 1), y);
    lemma_mul_is_commutative(y, (b + 1) * (b + 1));
    lemma_mul_is_commutative(y, (b + 4) * (b - 1));
    assert(w * k == (w * s * b) * (b - 1)) by (nonlinear_arith)
        requires
            k == s * (b - 1) * b,
    ;
    assert(y * ((b + 4) * (b - 1)) == (y * (b + 4)) * (b - 1)) by (nonlinear_arith);
    lemma_cancel(w * s * b, y * (b + 4), b - 1);
}

#[verifier::spinoff_prover]
proof fn lemma_extrapolated_at_least(
    v: int,
    f: int,
    x: int,
    raw: int,
    s: int,
    one: int,
    b: int,
    w: int,
)
    requires
        b >= 5,
        one > 0,
        0 <= v,
        0 <= s,
        0 <= raw,
        v * f * b >= x * one * (b - 1),
        x * b >= raw * one * (b - 1),
        s * (b + 1) >= 300 * f * b,
        w * one >= v,
    ensures
        w * s * b >= 300 * raw * one * (b - 4),
{
    let y = 300 * raw * one;
    let k = s * (b + 1) * b;
    let vb = v * b;
    let c = 300 * one * (b - 1);
    assert(k >= 0 && y >= 0 && vb >= 0 && c >= 0) by (nonlinear_arith)
        requires
            k == s * (b + 1) * b,
            y == 300 * raw * one,
            vb == v * b,
            c == 300 * one * (b - 1),
            s >= 0,
            raw >= 0,
            v >= 0,
            one > 0,
            b >= 5,
    ;
    lemma_scale(300 * f * b, s * (b + 1), vb);
    assert(s * (b + 1) * vb == v * k) by (nonlinear_arith)
        requires
            vb == v * b,
            k == s * (b + 1) * b,
    ;
    assert(300 * f * b * vb == v * f * b * (300 * b)) by (nonlinear_arith)
        requires
            vb == v * b,
    ;
    lemma_scale(x * one * (b - 1), v * f * b, 300 * b);
    assert(x * one * (b - 1) * (300 * b) == x * b * c) by (nonlinear_arith)
        requires
            c == 300 * one * (b - 1),
    ;
    lemma_scale(raw * one * (b - 1), x * b, c);
    assert(raw * one * (b - 1) * c == y * ((b - 1) * (b - 1)) * one) by (nonlinear_arith)
        requires
            c == 300 * one * (b - 1),
            y == 300 * raw * one,
    ;
    lemma_scale(v, w * one, k);
    assert(w * one * k == (w * k) * one) by (nonlinear_arith);
    lemma_cancel(y * ((b - 1) * (b - 1)), w * k, one);
    assert((b - 1) * (b - 1) >= (b - 4) * (b + 1)) by (nonlinear_arith)
        requires
            b >= 5,
    ;
    lemma_mul_inequality((b - 4) * (b + 1), (b - 1) * (b - 1), y);
    lemma_mul_is_commutative(y, (b - 1) * (b - 1));
    lemma_mul_is_commutative(y, (b - 4) * (b + 1));
    assert(w * k == (w * s * b) * (b + 1)) by (nonlinear_arith)
        requires
            k == s * (b + 1) * b,
    ;
    assert(y * ((b - 4) * (b + 1)) == (y * (b - 4)) * (b + 1)) by (nonlinear_arith);
    lemma_cancel(y * (b - 4), w * s * b, b + 1);
}

/// The seconds, in units, for which a number of seconds counts: no fewer than three and no more
/// than there are in a bin.
pub open spec fn counted_seconds(elapsed_bin_secs: Value) -> nat {
    let low = 3 * one_in_units();
    let high = BIN_DURATION_SECS as nat * one_in_units();
    match elapsed_bin_secs {
        Value::Nan => 0,
        Value::Infinite { negative } => if negative {
            low
        } else {
            high
        },
        Value::Finite { negative, magnitude } => if negative || magnitude <= low {
            low
        } else if magnitude >= high {
            high
        } else {
            magnitude
        },
    }
}

#[verifier::spinoff_prover]
proof fn lemma_units_are_small()
    ensures
        one_in_units() > 0,
        parts() == pow2(53),
        parts() * pow2(128) <= one_in_units(),
        pow2(128) == 0x1_0000_0000_0000_0000_0000_0000_0000_0000nat,
        Value::of_int(1) == (Value::Finite { negative: false, magnitude: one_in_units() }),
        Value::of_int(300) == (Value::Finite { negative: false, magnitude: 300 * one_in_units() }),
{
    lemma_pow2_constants();
    lemma_pow2_pos(UNIT_EXPONENT as nat);
    lemma2_to64_rest();
    lemma_pow2_adds(64, 64);
    lemma_pow2_adds(53, 128);
    lemma_pow2_strictly_increases(181, UNIT_EXPONENT as nat);
    law_small_integers_are_exact(1);
    law_small_integers_are_exact(300);
}

/// The elapsed part of a bin is the counted seconds over those of a bin, up to one part in `2^53`.
#[verifier::spinoff_prover]
proof fn lemma_elapsed_fraction(elapsed_bin_secs: Value)
    requires
        elapsed_bin_secs != Value::Nan,
    ensures
        ({
            let fraction = elapsed_fraction(elapsed_bin_secs);
            let s = counted_seconds(elapsed_bin_secs);
            &&& fraction is Finite
            &&& !fraction->Finite_negative
            &&& 0 < fraction->Finite_magnitude <= one_in_units()
            &&& 300 * fraction->Finite_magnitude * parts() <= s * (parts() + 1)
            &&& 300 * fraction->Finite_magnitude * parts() >= s * (parts() - 1)
            &&& 128 * fraction->Finite_magnitude >= one_in_units()
            &&& fraction->Finite_magnitude == round_ratio(s, 300)
        }),
{
    let one = one_in_units();
    let b = parts();
    lemma_units_are_small();
    lemma2_to64();
    let hundredth = round_ratio(one, 100);
    assert(round_ratio(3 * one, 300) == hundredth) by {
        lemma_round_ratio_cancels(one, 100, 3);
        assert(one * 3 == 3 * one);
    }
    assert(round_ratio(300 * one, 300) == one) by {
        lemma_scaled_is_representable(1, UNIT_EXPONENT as nat);
        law_rounding_is_exact(one, 300);
        assert(one * 300 == 300 * one);
    }
    lemma_pow2_strictly_increases(UNIT_EXPONENT as nat, END_EXPONENT as nat);
    law_rounding_is_monotone(3 * one, 300, 300 * one, 300);
    assert(Value::of_ratio(1, 100) == (Value::Finite { negative: false, magnitude: hundredth }));
    assert(128 * hundredth >= one) by {
        lemma_pow2_adds(7, (UNIT_EXPONENT - 7) as nat);
        lemma_scaled_is_representable(1, (UNIT_EXPONENT - 7) as nat);
        law_rounding_keeps_bounds(one, 100, pow2((UNIT_EXPONENT - 7) as nat));
    }
    let s = counted_seconds(elapsed_bin_secs);
    let q = round_ratio(s, 300);
    assert(3 * one <= s <= 300 * one);
    assert(elapsed_fraction(elapsed_bin_secs) == (Value::Finite { negative: false, magnitude: q }))
        by {
        if let Value::Finite { negative, magnitude } = elapsed_bin_secs {
            lemma_round_ratio_cancels(magnitude, 300, one);
            if !negative {
                if magnitude <= 3 * one {
                    law_rounding_is_monotone(magnitude, 300, 3 * one, 300);
                } else if magnitude >= 300 * one {
                    law_rounding_is_monotone(300 * one, 300, magnitude, 300);
                } else {
                    law_rounding_is_monotone(3 * one, 300, magnitude, 300);
                    law_rounding_is_monotone(magnitude, 300, 300 * one, 300);
                }
            }
        }
    }
    lemma_rounding_is_close(s, 300);
    law_rounding_is_monotone(3 * one, 300, s, 300);
    law_rounding_is_monotone(s, 300, 300 * one, 300);
    assert(300 * b <= 2 * s);
}

/// The whole part of a rounded number is below it by less than one, or is the largest there is.
#[verifier::spinoff_prover]
proof fn lemma_whole_part(n: nat, d: nat)
    ensures
        ({
            let whole = Value::rounded(false, n, d).to_u64();
            let r = round_ratio(n, d);
            &&& whole * one_in_units() <= r
            &&& whole == u64::MAX || r <= (whole + 1) * one_in_units()
        }),
{
    let one = one_in_units();
    let r = round_ratio(n, d);
    lemma_units_are_small();
    lemma2_to64();
    lemma_fundamental_div_mod(r as int, one as int);
    let q = r as int / one as int;
    assert((q + 1) * one == one * q + one && q * one == one * q) by (nonlinear_arith);
    if q > u64::MAX {
        lemma_scale(u64::MAX as int, q, one as int);
    }
    if r >= pow2(END_EXPONENT as nat) {
        lemma_pow2_adds(64, UNIT_EXPONENT as nat);
        lemma_pow2_strictly_increases(64 + UNIT_EXPONENT as nat, END_EXPONENT as nat);
        lemma_scale(u64::MAX as int, pow2(64) as int, one as int);
    }
}

/// A `u64` is off by at most one part in `2^53` once it is a binary64 number.
#[verifier::spinoff_prover]
proof fn lemma_of_u64(n: u64)
    ensures
        ({
            let m = Value::of_int(n as nat)->Finite_magnitude;
            &&& Value::of_int(n as nat) == (Value::Finite { negative: false, magnitude: m })
            &&& m * parts() <= n * one_in_units() * (parts() + 1)
            &&& m * parts() >= n * one_in_units() * (parts() - 1)
            &&& n > 0 ==> m >= one_in_units()
            &&& n == 0 ==> m == 0
            &&& m <= pow2(64) * one_in_units()
        }),
{
    let one = one_in_units();
    lemma_units_are_small();
    law_of_u64_is_finite(n);
    let x = n as nat * one;
    assert(n > 0 ==> x >= one) by (nonlinear_arith)
        requires
            x == n as nat * one,
    ;
    lemma_rounding_is_close(x, 1);
}

/// What a bin is heading for is what has traded in it times the seconds of a bin over those that
/// have passed, up to one part in `2^51` and the fraction that is cut off, for every volume and
/// every number of seconds; where that is more than a `u64` can hold, it is the largest one.
/// Less than three seconds count as three, and more than there are in a bin as those.
#[verifier::spinoff_prover]
pub proof fn law_extrapolation_is_proportional(raw_bin_volume: u64, elapsed_bin_secs: Value)
    requires
        elapsed_bin_secs != Value::Nan,
    ensures
        ({
            let volume = extrapolated_volume(raw_bin_volume, elapsed_bin_secs);
            let seconds = counted_seconds(elapsed_bin_secs);
            let bin = BIN_DURATION_SECS * raw_bin_volume * one_in_units();
            &&& volume * seconds * parts() <= bin * (parts() + 4)
            &&& volume == u64::MAX || (volume + 1) * seconds * parts() >= bin * (parts() - 4)
        }),
{
    let one = one_in_units();
    let b = parts();
    lemma_units_are_small();
    lemma_of_u64(raw_bin_volume);
    lemma_elapsed_fraction(elapsed_bin_secs);
    let s = counted_seconds(elapsed_bin_secs);
    let f = elapsed_fraction(elapsed_bin_secs)->Finite_magnitude;
    let x = Value::of_int(raw_bin_volume as nat)->Finite_magnitude;
    let v = round_ratio(x * one, f);
    let volume = extrapolated_volume(raw_bin_volume, elapsed_bin_secs);
    lemma_whole_part(x * one, f);
    assert(x == 0 ==> x * one == 0) by (nonlinear_arith);
    assert(raw_bin_volume > 0 ==> f * b <= 2 * (x * one)) by (nonlinear_arith)
        requires
            raw_bin_volume > 0 ==> x >= one,
            f <= one,
            b <= one,
            one > 0,
    ;
    lemma_rounding_is_close(x * one, f);
    let raw = raw_bin_volume as int;
    assert(x * one * b == x * one * (b - 1) + x * one) by (nonlinear_arith);
    lemma_extrapolated_at_most(
        v as int,
        f as int,
        x as int,
        raw,
        s as int,
        one as int,
        b as int,
        volume as int,
    );
    if volume < u64::MAX {
        lemma_extrapolated_at_least(
            v as int,
            f as int,
            x as int,
            raw,
            s as int,
            one as int,
            b as int,
            volume + 1,
        );
    }
}

#[verifier::spinoff_prover]
proof fn lemma_cubes(b: int)
    requires
        b >= 100,
    ensures
        (b + 1) * (b + 1) * (b + 1) <= b * b * (b + 4),
        (b - 1) * (b - 1) * (b - 1) >= b * b * (b - 4),
        (b + 1) * (b + 1) * (b + 1) <= (b - 1) * b * (b + 8),
        (b - 1) * (b - 1) * (b - 1) >= (b + 1) * b * (b - 8),
        (b + 1) * (b + 1) <= 2 * (b * b),
        (b + 1) * (b + 1) <= b * (b + 3),
        (b - 1) * (b - 1) >= b * (b - 3),
        (b + 1) * (b + 8) <= b * (b + 10),
        (b - 1) * (b - 8) >= b * (b - 10),
{
    let c = b * b;
    let d = b * b * b;
    assert(c >= 100 * b && d >= 100 * c) by (nonlinear_arith)
        requires
            c == b * b,
            d == b * b * b,
            b >= 100,
    ;
    assert((b + 1) * (b + 1) * (b + 1) == d + 3 * c + 3 * b + 1) by (nonlinear_arith)
        requires
            c == b * b,
            d == b * b * b,
    ;
    assert((b - 1) * (b - 1) * (b - 1) == d - 3 * c + 3 * b - 1) by (nonlinear_arith)
        requires
            c == b * b,
            d == b * b * b,
    ;
    assert(b * b * (b + 4) == d + 4 * c && b * b * (b - 4) == d - 4 * c) by (nonlinear_arith)
        requires
            c == b * b,
            d == b * b * b,
    ;
    assert((b - 1) * b * (b + 8) == d + 7 * c - 8 * b && (b + 1) * b * (b - 8) == d - 7 * c - 8 * b)
        by (nonlinear_arith)
        requires
            c == b * b,
            d == b * b * b,
    ;
    assert((b + 1) * (b + 1) == c + 2 * b + 1 && (b - 1) * (b - 1) == c - 2 * b + 1)
        by (nonlinear_arith)
        requires
            c == b * b,
    ;
    assert(b * (b + 3) == c + 3 * b && b * (b - 3) == c - 3 * b) by (nonlinear_arith)
        requires
            c == b * b,
    ;
    assert((b + 1) * (b + 8) == c + 9 * b + 8 && b * (b + 10) == c + 10 * b) by (nonlinear_arith)
        requires
            c == b * b,
    ;
    assert((b - 1) * (b - 8) == c - 9 * b + 8 && b * (b - 10) == c - 10 * b) by (nonlinear_arith)
        requires
            c == b * b,
    ;
}

#[verifier::spinoff_prover]
proof fn lemma_slice_at_most(z: int, q: int, big: int, r: int, w: int, left: int, one: int, b: int)
    requires
        b >= 100,
        one > 0,
        0 <= q,
        0 <= big,
        0 <= r,
        0 <= w,
        0 <= left,
        z * one * b <= big * q * (b + 1) + one * b,
        q * left * b <= w * one * (b + 1) + left * b,
        big * b <= r * one * (b + 1),
    ensures
        z * left * b <= r * w * one * (b + 4) + (2 * r + 1) * left * b,
{
    lemma_cubes(b);
    let bb = b * b;
    let bbb = b * b * b;
    let m = w * one * (b + 1) + left * b;
    let t = (b + 1) * m;
    let lbb = left * bb;
    let k = big * (b + 1) * b;
    assert(bb > 0 && lbb >= 0 && m >= 0 && t >= 0 && k >= 0) by (nonlinear_arith)
        requires
            bb == b * b,
            lbb == left * bb,
            m == w * one * (b + 1) + left * b,
            t == (b + 1) * m,
            k == big * (b + 1) * b,
            b >= 100,
            left >= 0,
            w >= 0,
            one > 0,
            big >= 0,
    ;
    lemma_scale(z * one * b, big * q * (b + 1) + one * b, lbb);
    assert(z * one * b * lbb == (z * left * bbb) * one) by (nonlinear_arith)
        requires
            bb == b * b,
            bbb == b * b * b,
            lbb == left * bb,
    ;
    lemma_mul_is_distributive_add_other_way(lbb, big * q * (b + 1), one * b);
    assert(big * q * (b + 1) * lbb == (q * left * b) * k) by (nonlinear_arith)
        requires
            bb == b * b,
            lbb == left * bb,
            k == big * (b + 1) * b,
    ;
    assert(one * b * lbb == (left * bbb) * one) by (nonlinear_arith)
        requires
            bb == b * b,
            bbb == b * b * b,
            lbb == left * bb,
    ;
    lemma_scale(q * left * b, m, k);
    assert(m * k == (big * b) * t) by (nonlinear_arith)
        requires
            t == (b + 1) * m,
            k == big * (b + 1) * b,
    ;
    lemma_scale(big * b, r * one * (b + 1), t);
    assert(r * one * (b + 1) * t == (r * (b + 1) * t) * one) by (nonlinear_arith);
    assert((r * (b + 1) * t) * one + (left * bbb) * one == (r * (b + 1) * t + left * bbb) * one)
        by (nonlinear_arith);
    lemma_cancel(z * left * bbb, r * (b + 1) * t + left * bbb, one);
    let rw = r * w * one;
    let rl = r * left * b;
    assert(rw >= 0 && rl >= 0) by (nonlinear_arith)
        requires
            rw == r * w * one,
            rl == r * left * b,
            r >= 0,
            w >= 0,
            one > 0,
            left >= 0,
            b >= 100,
    ;
    let square = (b + 1) * (b + 1);
    assert(r * (b + 1) * t == r * square * m) by (nonlinear_arith)
        requires
            t == (b + 1) * m,
            square == (b + 1) * (b + 1),
    ;
    lemma_mul_is_distributive_add(r * square, w * one * (b + 1), left * b);
    assert(r * square * (w * one * (b + 1)) == (square * (b + 1)) * rw) by (nonlinear_arith)
        requires
            rw == r * w * one,
    ;
    assert(r * square * (left * b) == square * rl) by (nonlinear_arith)
        requires
            rl == r * left * b,
    ;
    lemma_scale((b + 1) * (b + 1) * (b + 1), b * b * (b + 4), rw);
    lemma_scale((b + 1) * (b + 1), 2 * (b * b), rl);
    let goal = rw * (b + 4) + (2 * r + 1) * left * b;
    assert((2 * r + 1) * left * b == 2 * rl + left * b) by (nonlinear_arith)
        requires
            rl == r * left * b,
    ;
    assert(b * b * (b + 4) * rw == (rw * (b + 4)) * bb) by (nonlinear_arith)
        requires
            bb == b * b,
    ;
    assert(2 * (b * b) * rl == (2 * rl) * bb) by (nonlinear_arith)
        requires
            bb == b * b,
    ;
    assert(left * bbb == (left * b) * bb) by (nonlinear_arith)
        requires
            bb == b * b,
            bbb == b * b * b,
    ;
    lemma_mul_is_distributive_add_other_way(bb, rw * (b + 4) + 2 * rl, left * b);
    lemma_mul_is_distributive_add_other_way(bb, rw * (b + 4), 2 * rl);
    assert(z * left * bbb == (z * left * b) * bb) by (nonlinear_arith)
        requires
            bb == b * b,
            bbb == b * b * b,
    ;
    lemma_cancel(z * left * b, goal, bb);
}

#[verifier::spinoff_prover]
proof fn lemma_slice_at_least(z: int, q: int, big: int, r: int, w: int, left: int, one: int, b: int)
    requires
        b >= 100,
        one > 0,
        0 <= q,
        0 <= big,
        0 <= r,
        0 <= w,
        0 <= left,
        z * one * b + one * b >= big * q * (b - 1),
        q * left * b + left * b >= w * one * (b - 1),
        big * b >= r * one * (b - 1),
        big * b <= r * one * (b + 1),
    ensures
        z * left * b + (2 * r + 1) * left * b >= r * w * one * (b - 4),
{
    lemma_cubes(b);
    let bb = b * b;
    let bbb = b * b * b;
    let lbb = left * bb;
    let k = big * (b - 1) * b;
    let t = (b - 1) * (w * one * (b - 1));
    assert(bb > 0 && lbb >= 0 && k >= 0 && t >= 0) by (nonlinear_arith)
        requires
            bb == b * b,
            lbb == left * bb,
            k == big * (b - 1) * b,
            t == (b - 1) * (w * one * (b - 1)),
            b >= 100,
            left >= 0,
            w >= 0,
            one > 0,
            big >= 0,
    ;
    lemma_scale(big * q * (b - 1), z * one * b + one * b, lbb);
    assert((z * one * b + one * b) * lbb == (z * left * bbb + left * bbb) * one) by (nonlinear_arith)
        requires
            bb == b * b,
            bbb == b * b * b,
            lbb == left * bb,
    ;
    assert(big * q * (b - 1) * lbb == (q * left * b) * k) by (nonlinear_arith)
        requires
            bb == b * b,
            lbb == left * bb,
            k == big * (b - 1) * b,
    ;
    lemma_scale(w * one * (b - 1), q * left * b + left * b, k);
    assert((q * left * b + left * b) * k == (q * left * b) * k + (left * b) * k)
        by (nonlinear_arith);
    assert(w * one * (b - 1) * k == (big * b) * t) by (nonlinear_arith)
        requires
            t == (b - 1) * (w * one * (b - 1)),
            k == big * (b - 1) * b,
    ;
    lemma_scale(r * one * (b - 1), big * b, t);
    let rw = r * w * one;
    assert(rw >= 0) by (nonlinear_arith)
        requires
            rw == r * w * one,
            r >= 0,
            w >= 0,
            one > 0,
    ;
    assert(r * one * (b - 1) * t == (((b - 1) * (b - 1) * (b - 1)) * rw) * one) by (nonlinear_arith)
        requires
            t == (b - 1) * (w * one * (b - 1)),
            rw == r * w * one,
    ;
    // What the unit below `q` comes to.
    let c = left * b * (b - 1);
    assert(c >= 0) by (nonlinear_arith)
        requires
            c == left * b * (b - 1),
            left >= 0,
            b >= 100,
    ;
    assert((left * b) * k == (big * b) * c) by (nonlinear_arith)
        requires
            k == big * (b - 1) * b,
            c == left * b * (b - 1),
    ;
    lemma_scale(big * b, r * one * (b + 1), c);
    assert((b + 1) * (b - 1) <= 2 * bb) by (nonlinear_arith)
        requires
            bb == b * b,
            b >= 100,
    ;
    let rlb = r * one * left * b;
    assert(rlb >= 0) by (nonlinear_arith)
        requires
            rlb == r * one * left * b,
            r >= 0,
            one > 0,
            left >= 0,
            b >= 100,
    ;
    lemma_scale((b + 1) * (b - 1), 2 * bb, rlb);
    assert(r * one * (b + 1) * c == (b + 1) * (b - 1) * rlb) by (nonlinear_arith)
        requires
            c == left * b * (b - 1),
            rlb == r * one * left * b,
    ;
    assert(2 * bb * rlb == (2 * r * left * bbb) * one) by (nonlinear_arith)
        requires
            bb == b * b,
            bbb == b * b * b,
            rlb == r * one * left * b,
    ;
    let cube = ((b - 1) * (b - 1) * (b - 1)) * rw;
    assert((z * left * bbb + left * bbb) * one + (2 * r * left * bbb) * one == (z * left * bbb
        + left * bbb + 2 * r * left * bbb) * one) by (nonlinear_arith);
    lemma_cancel(cube, z * left * bbb + left * bbb + 2 * r * left * bbb, one);
    lemma_scale(b * b * (b - 4), (b - 1) * (b - 1) * (b - 1), rw);
    assert(b * b * (b - 4) * rw == (rw * (b - 4)) * bb) by (nonlinear_arith)
        requires
            bb == b * b,
    ;
    assert(z * left * bbb + left * bbb + 2 * r * left * bbb == (z * left * b + (2 * r + 1) * left
        * b) * bb) by (nonlinear_arith)
        requires
            bb == b * b,
            bbb == b * b * b,
    ;
    lemma_cancel(rw * (b - 4), z * left * b + (2 * r + 1) * left * b, bb);
}

/// A rounding of whole units is off by at most one part in `2^53`.
#[verifier::spinoff_prover]
proof fn lemma_whole_units(n: nat)
    ensures
        round_ratio(n, 1) * parts() <= n * (parts() + 1),
        round_ratio(n, 1) * parts() + n >= n * parts(),
{
    let b = parts();
    let r = round_ratio(n, 1);
    law_rounding_error(n, 1);
    lemma_mul_is_distributive_add(n as int, b as int, 1);
    if 2 * crate::rounding::error(r, n, 1) <= 1 {
        assert(r == n);
    } else {
        let err = crate::rounding::error(r, n, 1) as int;
        lemma_mul_is_distributive_sub_other_way(b as int, r as int, n as int);
        assert((r - n) * b <= err * b && (n - r) * b <= err * b) by (nonlinear_arith)
            requires
                r - n <= err,
                n - r <= err,
        ;
        lemma_mul_is_distributive_sub_other_way(b as int, n as int, r as int);
        lemma_mul_is_commutative(err, b as int);
    }
}

#[verifier::spinoff_prover]
proof fn lemma_sum(left: int, m: int, y: int, e: int, j: int, b: int)
    requires
        b >= 10_000,
        0 <= m,
        0 <= y,
        0 <= e,
        0 <= j <= 1_000,
        left * b <= (m + y) * (b + 1),
        left * b + (m + y) >= (m + y) * b,
        m * b <= e * (b + 2 * j),
        m * b >= e * (b - 2 * j),
    ensures
        left * b <= (e + y) * (b + 2 * (j + 1)),
        left * b >= (e + y) * (b - 2 * (j + 1)),
{
    let total = e + y;
    let ej = e * j;
    let tj = total * j;
    let mb = m * b;
    let yb = y * b;
    let eb = e * b;
    assert(0 <= ej <= tj) by (nonlinear_arith)
        requires
            ej == e * j,
            tj == total * j,
            e <= total,
            e >= 0,
            j >= 0,
    ;
    lemma_mul_is_distributive_add_other_way(b, m, y);
    lemma_mul_is_distributive_add(m + y, b, 1);
    lemma_mul_is_distributive_add_other_way(b, e, y);
    lemma_mul_is_distributive_add(e, b, 2 * j);
    lemma_mul_is_distributive_sub(e, b, 2 * j);
    assert(e * (2 * j) == 2 * ej) by (nonlinear_arith)
        requires
            ej == e * j,
    ;
    lemma_mul_is_distributive_add(total, b, 2 * (j + 1));
    lemma_mul_is_distributive_sub(total, b, 2 * (j + 1));
    assert(total * (2 * (j + 1)) == 2 * tj + 2 * total) by (nonlinear_arith)
        requires
            tj == total * j,
    ;
    assert(m <= 2 * e) by {
        assert(e * (b + 2 * j) <= (2 * e) * b) by (nonlinear_arith)
            requires
                e >= 0,
                2 * j <= b,
        ;
        lemma_cancel(m, 2 * e, b);
    }
}

/// The weights of the bins from `k` on, in units, added up exactly.
pub open spec fn exact_weight_left(weights: Seq<Double>, k: nat) -> nat
    decreases weights.len() - k,
{
    if k >= weights.len() {
        0
    } else {
        exact_weight_left(weights, k + 1) + weights[k as int]@->Finite_magnitude
    }
}

/// The weight of the bins from `k` on is the sum of their weights, up to two parts in `2^53` for
/// each of them.
#[verifier::spinoff_prover]
pub proof fn law_weight_left_is_the_sum(weights: Seq<Double>, k: nat)
    requires
        weights_are_not_negative(weights),
        k <= weights.len() <= 1_000,
        suffix_weight(weights, k) is Finite,
    ensures
        ({
            let left = suffix_weight(weights, k)->Finite_magnitude;
            let exact = exact_weight_left(weights, k);
            &&& !(suffix_weight(weights, k)->Finite_negative)
            &&& left * parts() <= exact * (parts() + 2 * (weights.len() - k))
            &&& left * parts() >= exact * (parts() - 2 * (weights.len() - k))
        }),
    decreases weights.len() - k,
{
    let b = parts() as int;
    if k < weights.len() {
        let rest = suffix_weight(weights, k + 1);
        let weight = weights[k as int]@;
        law_weight_left_is_no_less_than_the_bins(weights, k + 1);
        assert(weight.nonnegative());
        assert(rest is Finite && weight is Finite);
        law_weight_left_is_the_sum(weights, k + 1);
        let m = rest->Finite_magnitude as int;
        let y = weight->Finite_magnitude as int;
        let e = exact_weight_left(weights, k + 1) as int;
        let left = suffix_weight(weights, k)->Finite_magnitude as int;
        let j = weights.len() - (k + 1);
        assert(left == round_ratio((m + y) as nat, 1)) by {
            lemma_round_ratio_of_zero(1);
        }
        lemma_whole_units((m + y) as nat);
        lemma_sum(left, m, y, e, j, b);
    }
}

/// In every bin the slice, times the weight of the bins that are left, is the remaining quantity
/// times the weight of the bin: up to four parts in `2^53`, and up to as many units, of which
/// `2^1074` make one, as come from numbers too small for a full significand.
#[verifier::spinoff_prover]
pub proof fn law_slice_is_the_share_of_the_bin(scheduler: SchedulerModel)
    requires
        scheduler.weights[scheduler.state.current_bin as int]@ is Finite,
        suffix_weight(scheduler.weights, scheduler.state.current_bin as nat) is Finite,
        (Value::Finite { negative: false, magnitude: 0 }).less_than(
            suffix_weight(scheduler.weights, scheduler.state.current_bin as nat),
        ),
        scheduler.base_slice() is Finite,
    ensures
        ({
            let bin = scheduler.state.current_bin as int;
            let slice = scheduler.base_slice()->Finite_magnitude;
            let weight = scheduler.weights[bin]@->Finite_magnitude;
            let left = suffix_weight(scheduler.weights, bin as nat)->Finite_magnitude;
            let remaining = scheduler.state.remaining_qty;
            let share = remaining * weight * one_in_units();
            &&& slice > 0 ==> scheduler.base_slice()->Finite_negative
                == scheduler.weights[bin]@->Finite_negative
            &&& slice * left * parts() <= share * (parts() + 4) + (2 * remaining + 1) * left
                * parts()
            &&& slice * left * parts() + (2 * remaining + 1) * left * parts() >= share * (parts()
                - 4)
        }),
{
    let one = one_in_units();
    let b = parts();
    let bin = scheduler.state.current_bin as int;
    let value = scheduler.weights[bin]@;
    let rest = suffix_weight(scheduler.weights, bin as nat);
    let w = value->Finite_magnitude;
    let left = rest->Finite_magnitude;
    let r = scheduler.state.remaining_qty;
    lemma_units_are_small();
    lemma_pow2_pos(END_EXPONENT as nat);
    lemma_of_u64(r);
    let big = Value::of_int(r as nat)->Finite_magnitude;
    let q = round_ratio(w * one, left);
    let z = round_ratio(big * q, one);
    lemma_rounding_is_close(w * one, left);
    lemma_rounding_is_close(big * q, one);
    let share = value.over(rest);
    assert(scheduler.base_slice() == Value::of_int(r as nat).times(share));
    assert(share is Finite && share->Finite_magnitude == q);
    assert(scheduler.base_slice()->Finite_magnitude == z);
    assert(big * q * b == big * q * (b - 1) + big * q) by (nonlinear_arith);
    assert(w * one * b == w * one * (b - 1) + w * one) by (nonlinear_arith);
    lemma_slice_at_most(
        z as int,
        q as int,
        big as int,
        r as int,
        w as int,
        left as int,
        one as int,
        b as int,
    );
    lemma_slice_at_least(
        z as int,
        q as int,
        big as int,
        r as int,
        w as int,
        left as int,
        one as int,
        b as int,
    );
}

#[verifier::spinoff_prover]
proof fn lemma_scaled_at_most(
    u: int,
    z: int,
    p: int,
    m: int,
    f: int,
    live: int,
    expected: int,
    one: int,
    b: int,
)
    requires
        b >= 100,
        one > 0,
        0 <= u,
        0 <= z,
        0 <= p,
        0 <= m,
        0 <= f,
        0 <= live,
        0 <= expected,
        u * one * b <= z * p * (b + 1) + one * b,
        p * f * b <= m * one * (b + 1),
        m * b <= live * one * (b + 1),
        f * b >= expected * one * (b - 1),
        f * b <= expected * one * (b + 1),
    ensures
        u * expected * b <= z * live * (b + 8) + 3 * expected * b,
{
    lemma_cubes(b);
    let bb = b * b;
    let fb = f * b;
    let k = z * (b + 1);
    let square = (b + 1) * (b + 1);
    assert(bb > 0 && fb >= 0 && k >= 0 && square > 0 && z * square >= 0) by (nonlinear_arith)
        requires
            bb == b * b,
            fb == f * b,
            k == z * (b + 1),
            square == (b + 1) * (b + 1),
            f >= 0,
            z >= 0,
            b >= 100,
    ;
    lemma_scale(u * one * b, z * p * (b + 1) + one * b, fb);
    assert(u * one * b * fb == (u * fb * b) * one) by (nonlinear_arith);
    lemma_mul_is_distributive_add_other_way(fb, z * p * (b + 1), one * b);
    assert(z * p * (b + 1) * fb == (p * f * b) * k) by (nonlinear_arith)
        requires
            fb == f * b,
            k == z * (b + 1),
    ;
    lemma_scale(p * f * b, m * one * (b + 1), k);
    assert(m * one * (b + 1) * k == (z * square * m) * one) by (nonlinear_arith)
        requires
            k == z * (b + 1),
            square == (b + 1) * (b + 1),
    ;
    assert(one * b * fb == (fb * b) * one) by (nonlinear_arith);
    assert((z * square * m) * one + (fb * b) * one == (z * square * m + fb * b) * one)
        by (nonlinear_arith);
    lemma_cancel(u * fb * b, z * square * m + fb * b, one);
    // Times `b`, with the volumes in place of their binary64 numbers.
    lemma_scale(u * fb * b, z * square * m + fb * b, b);
    lemma_mul_is_distributive_add_other_way(b, z * square * m, fb * b);
    assert(z * square * m * b == (m * b) * (z * square)) by (nonlinear_arith);
    lemma_scale(m * b, live * one * (b + 1), z * square);
    let zl = z * live;
    let cube = square * (b + 1);
    assert(live * one * (b + 1) * (z * square) == (zl * cube) * one) by (nonlinear_arith)
        requires
            zl == z * live,
            cube == square * (b + 1),
    ;
    lemma_scale(fb, expected * one * (b + 1), bb);
    assert(fb * b * b == fb * bb) by (nonlinear_arith)
        requires
            bb == b * b,
    ;
    assert(expected * one * (b + 1) * bb == (expected * (b + 1) * bb) * one) by (nonlinear_arith);
    let ubb = u * bb;
    assert(ubb >= 0) by (nonlinear_arith)
        requires
            ubb == u * bb,
            u >= 0,
            bb > 0,
    ;
    lemma_scale(expected * one * (b - 1), fb, ubb);
    assert(expected * one * (b - 1) * ubb == (u * expected * (b - 1) * bb) * one) by (nonlinear_arith)
        requires
            ubb == u * bb,
    ;
    assert(fb * ubb == u * fb * b * b) by (nonlinear_arith)
        requires
            ubb == u * bb,
            bb == b * b,
    ;
    assert((zl * cube) * one + (expected * (b + 1) * bb) * one == (zl * cube + expected * (b + 1)
        * bb) * one) by (nonlinear_arith);
    lemma_cancel(u * expected * (b - 1) * bb, zl * cube + expected * (b + 1) * bb, one);
    assert(zl >= 0 && expected * bb >= 0) by (nonlinear_arith)
        requires
            zl == z * live,
            z >= 0,
            live >= 0,
            expected >= 0,
            bb > 0,
    ;
    lemma_scale(cube, (b - 1) * b * (b + 8), zl);
    lemma_scale(b + 1, 3 * (b - 1), expected * bb);
    let goal = zl * (b + 8) + 3 * expected * b;
    let c = (b - 1) * b;
    assert(c > 0) by (nonlinear_arith)
        requires
            c == (b - 1) * b,
            b >= 100,
    ;
    assert((b - 1) * b * (b + 8) * zl == (zl * (b + 8)) * c) by (nonlinear_arith)
        requires
            c == (b - 1) * b,
    ;
    assert(3 * (b - 1) * (expected * bb) == (3 * expected * b) * c) by (nonlinear_arith)
        requires
            c == (b - 1) * b,
            bb == b * b,
    ;
    assert(expected * (b + 1) * bb == (b + 1) * (expected * bb) && cube * zl == zl * cube)
        by (nonlinear_arith);
    lemma_mul_is_distributive_add_other_way(c, zl * (b + 8), 3 * expected * b);
    assert(u * expected * (b - 1) * bb == (u * expected * b) * c) by (nonlinear_arith)
        requires
            c == (b - 1) * b,
            bb == b * b,
    ;
    lemma_cancel(u * expected * b, goal, c);
}

#[verifier::spinoff_prover]
proof fn lemma_scaled_at_least(
    u: int,
    z: int,
    p: int,
    m: int,
    f: int,
    live: int,
    expected: int,
    one: int,
    b: int,
)
    requires
        b >= 100,
        one > 0,
        0 <= u,
        0 <= z,
        0 <= p,
        0 <= m,
        0 <= f,
        0 <= live,
        0 <= expected,
        u * one * b + one * b >= z * p * (b - 1),
        p * f * b >= m * one * (b - 1),
        m * b >= live * one * (b - 1),
        f * b <= expected * one * (b + 1),
    ensures
        (u + 1) * expected * b >= z * live * (b - 8),
{
    lemma_cubes(b);
    let bb = b * b;
    let fb = f * b;
    let k = z * (b - 1);
    let square = (b - 1) * (b - 1);
    let v = u + 1;
    assert(bb > 0 && fb >= 0 && k >= 0 && z * square >= 0) by (nonlinear_arith)
        requires
            bb == b * b,
            fb == f * b,
            k == z * (b - 1),
            square == (b - 1) * (b - 1),
            f >= 0,
            z >= 0,
            b >= 100,
    ;
    assert(v * one * b == u * one * b + one * b) by (nonlinear_arith)
        requires
            v == u + 1,
    ;
    lemma_scale(z * p * (b - 1), v * one * b, fb);
    assert(v * one * b * fb == (v * fb * b) * one) by (nonlinear_arith);
    assert(z * p * (b - 1) * fb == (p * f * b) * k) by (nonlinear_arith)
        requires
            fb == f * b,
            k == z * (b - 1),
    ;
    lemma_scale(m * one * (b - 1), p * f * b, k);
    assert(m * one * (b - 1) * k == (z * square * m) * one) by (nonlinear_arith)
        requires
            k == z * (b - 1),
            square == (b - 1) * (b - 1),
    ;
    lemma_cancel(z * square * m, v * fb * b, one);
    lemma_scale(z * square * m, v * fb * b, b);
    assert(z * square * m * b == (m * b) * (z * square)) by (nonlinear_arith);
    lemma_scale(live * one * (b - 1), m * b, z * square);
    let zl = z * live;
    let cube = square * (b - 1);
    assert(live * one * (b - 1) * (z * square) == (zl * cube) * one) by (nonlinear_arith)
        requires
            zl == z * live,
            cube == square * (b - 1),
    ;
    let vbb = v * bb;
    assert(vbb >= 0 && zl >= 0) by (nonlinear_arith)
        requires
            vbb == v * bb,
            v >= 0,
            bb > 0,
            zl == z * live,
            z >= 0,
            live >= 0,
    ;
    lemma_scale(fb, expected * one * (b + 1), vbb);
    assert(fb * vbb == v * fb * b * b) by (nonlinear_arith)
        requires
            vbb == v * bb,
            bb == b * b,
    ;
    assert(expected * one * (b + 1) * vbb == (v * expected * (b + 1) * bb) * one) by (nonlinear_arith)
        requires
            vbb == v * bb,
    ;
    lemma_cancel(zl * cube, v * expected * (b + 1) * bb, one);
    lemma_scale((b + 1) * b * (b - 8), cube, zl);
    let c = (b + 1) * b;
    assert(c > 0) by (nonlinear_arith)
        requires
            c == (b + 1) * b,
            b >= 100,
    ;
    assert((b + 1) * b * (b - 8) * zl == (zl * (b - 8)) * c && cube * zl == zl * cube)
        by (nonlinear_arith)
        requires
            c == (b + 1) * b,
    ;
    assert(v * expected * (b + 1) * bb == (v * expected * b) * c) by (nonlinear_arith)
        requires
            c == (b + 1) * b,
            bb == b * b,
    ;
    lemma_cancel(zl * (b - 8), v * expected * b, c);
}

#[verifier::spinoff_prover]
proof fn lemma_rounded_to_whole(
    t: int,
    u: int,
    z: int,
    live: int,
    expected: int,
    one: int,
    b: int,
)
    requires
        b >= 100,
        0 <= z,
        0 <= live,
        0 <= expected,
        u * expected * b <= z * live * (b + 8) + 3 * expected * b,
        (u + 1) * expected * b >= z * live * (b - 8),
    ensures
        2 * t * one * b <= (2 * u + one) * (b + 1) ==> 2 * t * one * expected * b <= 2 * z * live
            * (b + 10) + (one + 6) * expected * (b + 1),
        2 * t * one * b >= (2 * u + one) * (b - 1) ==> 2 * t * one * expected * b >= 2 * z * live
            * (b - 10) + (one - 2) * expected * (b - 1),
{
    lemma_cubes(b);
    let zl = z * live;
    let eb = expected * b;
    assert(zl >= 0 && eb >= 0) by (nonlinear_arith)
        requires
            zl == z * live,
            eb == expected * b,
            z >= 0,
            live >= 0,
            expected >= 0,
            b >= 100,
    ;
    let ueb = u * expected * b;
    assert((u + 1) * expected * b == ueb + eb) by (nonlinear_arith)
        requires
            ueb == u * expected * b,
            eb == expected * b,
    ;
    let oeb = one * expected * b;
    assert(3 * expected * b == 3 * eb) by (nonlinear_arith)
        requires
            eb == expected * b,
    ;
    assert(2 * t * one * b * eb == (2 * t * one * expected * b) * b) by (nonlinear_arith)
        requires
            eb == expected * b,
    ;
    if 2 * t * one * b <= (2 * u + one) * (b + 1) {
        lemma_scale(2 * t * one * b, (2 * u + one) * (b + 1), eb);
        assert((2 * u + one) * (b + 1) * eb == (b + 1) * (2 * ueb + oeb)) by (nonlinear_arith)
            requires
                ueb == u * expected * b,
                oeb == one * expected * b,
                eb == expected * b,
        ;
        lemma_scale(2 * ueb + oeb, 2 * (zl * (b + 8)) + 6 * eb + oeb, b + 1);
        lemma_mul_is_commutative(b + 1, 2 * ueb + oeb);
        lemma_mul_is_distributive_add_other_way(b + 1, 2 * (zl * (b + 8)), 6 * eb + oeb);
        assert(2 * (zl * (b + 8)) * (b + 1) == 2 * ((b + 1) * (b + 8) * zl)) by (nonlinear_arith);
        assert(6 * eb + oeb == (one + 6) * expected * b) by (nonlinear_arith)
            requires
                eb == expected * b,
                oeb == one * expected * b,
        ;
        assert((one + 6) * expected * b * (b + 1) == ((one + 6) * expected * (b + 1)) * b)
            by (nonlinear_arith);
        lemma_scale((b + 1) * (b + 8), b * (b + 10), zl);
        assert(b * (b + 10) * zl == (zl * (b + 10)) * b) by (nonlinear_arith);
        let goal = 2 * (zl * (b + 10)) + (one + 6) * expected * (b + 1);
        assert(goal * b == 2 * ((zl * (b + 10)) * b) + ((one + 6) * expected * (b + 1)) * b)
            by (nonlinear_arith)
            requires
                goal == 2 * (zl * (b + 10)) + (one + 6) * expected * (b + 1),
        ;
        lemma_cancel(2 * t * one * expected * b, goal, b);
        assert(2 * z * live * (b + 10) == 2 * (zl * (b + 10))) by (nonlinear_arith)
            requires
                zl == z * live,
        ;
    }
    if 2 * t * one * b >= (2 * u + one) * (b - 1) {
        lemma_scale((2 * u + one) * (b - 1), 2 * t * one * b, eb);
        assert((2 * u + one) * (b - 1) * eb == (b - 1) * (2 * ueb + oeb)) by (nonlinear_arith)
            requires
                ueb == u * expected * b,
                oeb == one * expected * b,
                eb == expected * b,
        ;
        lemma_scale(2 * (zl * (b - 8)) - 2 * eb + oeb, 2 * ueb + oeb, b - 1);
        lemma_mul_is_commutative(b - 1, 2 * ueb + oeb);
        lemma_mul_is_distributive_add_other_way(b - 1, 2 * (zl * (b - 8)), oeb - 2 * eb);
        assert(2 * (zl * (b - 8)) * (b - 1) == 2 * ((b - 1) * (b - 8) * zl)) by (nonlinear_arith);
        assert(oeb - 2 * eb == (one - 2) * expected * b) by (nonlinear_arith)
            requires
                eb == expected * b,
                oeb == one * expected * b,
        ;
        assert((one - 2) * expected * b * (b - 1) == ((one - 2) * expected * (b - 1)) * b)
            by (nonlinear_arith);
        lemma_scale(b * (b - 10), (b - 1) * (b - 8), zl);
        assert(b * (b - 10) * zl == (zl * (b - 10)) * b) by (nonlinear_arith);
        let goal = 2 * (zl * (b - 10)) + (one - 2) * expected * (b - 1);
        assert(goal * b == 2 * ((zl * (b - 10)) * b) + ((one - 2) * expected * (b - 1)) * b)
            by (nonlinear_arith)
            requires
                goal == 2 * (zl * (b - 10)) + (one - 2) * expected * (b - 1),
        ;
        lemma_cancel(goal, 2 * t * one * expected * b, b);
        assert(2 * z * live * (b - 10) == 2 * (zl * (b - 10))) by (nonlinear_arith)
            requires
                zl == z * live,
        ;
    }
}

/// The live volume over the expected one, up to one part in `2^53` of the two binary64 numbers.
#[verifier::spinoff_prover]
proof fn lemma_ratio(live: u64, expected: u64)
    requires
        expected > 0,
    ensures
        ({
            let p = volume_ratio(live, expected)->Finite_magnitude;
            let m = Value::of_int(live as nat)->Finite_magnitude;
            let f = Value::of_int(expected as nat)->Finite_magnitude;
            &&& volume_ratio(live, expected) == (Value::Finite { negative: false, magnitude: p })
            &&& p <= pow2(64) * one_in_units()
            &&& p * f * parts() <= m * one_in_units() * (parts() + 1)
            &&& p * f * parts() >= m * one_in_units() * (parts() - 1)
        }),
{
    let one = one_in_units();
    let b = parts();
    lemma_units_are_small();
    lemma_of_u64(live);
    lemma_of_u64(expected);
    lemma2_to64();
    let m = Value::of_int(live as nat)->Finite_magnitude;
    let f = Value::of_int(expected as nat)->Finite_magnitude;
    let p = round_ratio(m * one, f);
    let bound = pow2(64 + UNIT_EXPONENT as nat);
    lemma_pow2_adds(64, UNIT_EXPONENT as nat);
    lemma_pow2_strictly_increases(64 + UNIT_EXPONENT as nat, END_EXPONENT as nat);
    lemma_scaled_is_representable(1, 64 + UNIT_EXPONENT as nat);
    assert(m * one <= bound * f) by (nonlinear_arith)
        requires
            m <= bound,
            one <= f,
    ;
    law_rounding_keeps_bounds(m * one, f, bound);
    assert(m == 0 ==> m * one == 0) by (nonlinear_arith);
    let wide = pow2(64);
    assert(live > 0 ==> f * b <= 2 * (m * one)) by (nonlinear_arith)
        requires
            live > 0 ==> m >= one,
            f <= wide * one,
            wide * b <= one,
            one > 0,
    ;
    lemma_rounding_is_close(m * one, f);
    assert(m * one * b == m * one * (b - 1) + m * one) by (nonlinear_arith);
}

/// The target of a bin is its slice times the live volume over the expected one, rounded to a
/// whole quantity: off from it by no more than one half, up to ten parts in `2^53` and a few
/// units, of which `2^1074` make one. Where nothing was expected the slice is not scaled. A target
/// that is more than a `u64` can hold is the largest one.
#[verifier::spinoff_prover]
pub proof fn law_target_is_the_scaled_slice(scheduler: SchedulerModel, live: u64, expected: u64)
    requires
        scheduler.base_slice() is Finite,
        scheduler.base_slice().nonnegative(),
    ensures
        ({
            let slice = scheduler.base_slice()->Finite_magnitude;
            let target = scheduler.target(live, expected);
            let (l, e) = if expected > 0 {
                (live, expected)
            } else {
                (1, 1)
            };
            let one = one_in_units();
            &&& 2 * target * one * e * parts() <= 2 * slice * l * (parts() + 10) + (one + 6) * e * (
            parts() + 1)
            &&& target == u64::MAX || 2 * (target + 1) * one * e * parts() >= 2 * slice * l * (
            parts() - 10) + (one - 2) * e * (parts() - 1)
        }),
{
    let one = one_in_units();
    let b = parts();
    let base = scheduler.base_slice();
    let ratio = volume_ratio(live, expected);
    let target = scheduler.target(live, expected);
    let half = pow2((UNIT_EXPONENT - 1) as nat);
    lemma_units_are_small();
    lemma_pow2_unfold(UNIT_EXPONENT as nat);
    let z = base->Finite_magnitude;
    let (l, e): (u64, u64) = if expected > 0 {
        (live, expected)
    } else {
        (1, 1)
    };
    if expected > 0 {
        lemma_ratio(live, expected);
    } else {
        lemma_ratio(1, 1);
        crate::vwap::law_market_on_pace(1);
        assert(ratio == volume_ratio(1, 1));
    }
    lemma_of_u64(l);
    lemma_of_u64(e);
    let p = ratio->Finite_magnitude;
    let m = Value::of_int(l as nat)->Finite_magnitude;
    let f = Value::of_int(e as nat)->Finite_magnitude;
    let u = round_ratio(z * p, one);
    lemma_rounding_is_close(z * p, one);
    assert(z == 0 ==> z * p == 0) by (nonlinear_arith);
    lemma_round_ratio_of_zero(one);
    // With one half added, and cut off.
    lemma_scaled_is_representable(1, (UNIT_EXPONENT - 1) as nat);
    lemma_pow2_strictly_increases((UNIT_EXPONENT - 1) as nat, END_EXPONENT as nat);
    law_rounding_is_exact(half, 2);
    assert(half * 2 == one);
    assert(Value::of_ratio(1, 2) == (Value::Finite { negative: false, magnitude: half }));
    let sum = u + half;
    let w = round_ratio(sum, 1);
    lemma_whole_part(sum, 1);
    assert(target * one <= w && (target == u64::MAX || w <= (target + 1) * one)) by {
        let end = pow2(END_EXPONENT as nat);
        if u < end {
            assert(base.times(ratio).plus(Value::of_ratio(1, 2)) == Value::rounded(false, sum, 1));
        } else {
            assert(base.times(ratio) == Value::Infinite { negative: false });
            lemma2_to64();
            lemma_scaled_is_representable(1, END_EXPONENT as nat);
            law_rounding_keeps_bounds(sum, 1, end);
            lemma_pow2_adds(64, UNIT_EXPONENT as nat);
            lemma_pow2_strictly_increases(64 + UNIT_EXPONENT as nat, END_EXPONENT as nat);
            lemma_scale(u64::MAX as int, pow2(64) as int, one as int);
        }
    }
    lemma_rounding_is_close(sum, 1);
    lemma_scale(target * one, w as int, (2 * b) as int);
    assert(target * one * (2 * b) == 2 * target * one * b) by (nonlinear_arith);
    assert(w * (2 * b) == 2 * (w * 1 * b)) by (nonlinear_arith);
    assert(2 * (sum * (b + 1)) == (2 * u + one) * (b + 1)) by (nonlinear_arith)
        requires
            2 * sum == 2 * u + one,
    ;
    assert(2 * (sum * b) - 2 * sum == (2 * u + one) * (b - 1)) by (nonlinear_arith)
        requires
            2 * sum == 2 * u + one,
    ;
    assert(z * p * b == z * p * (b - 1) + z * p) by (nonlinear_arith);
    lemma_scaled_at_most(
        u as int,
        z as int,
        p as int,
        m as int,
        f as int,
        l as int,
        e as int,
        one as int,
        b as int,
    );
    lemma_scaled_at_least(
        u as int,
        z as int,
        p as int,
        m as int,
        f as int,
        l as int,
        e as int,
        one as int,
        b as int,
    );
    lemma_rounded_to_whole(
        target as int,
        u as int,
        z as int,
        l as int,
        e as int,
        one as int,
        b as int,
    );
    if target < u64::MAX {
        lemma_scale(w as int, (target + 1) * one, (2 * b) as int);
        assert((target + 1) * one * (2 * b) == 2 * (target + 1) * one * b) by (nonlinear_arith);
        lemma_rounded_to_whole(
            target + 1,
            u as int,
            z as int,
            l as int,
            e as int,
            one as int,
            b as int,
        );
    }
}

#[verifier::spinoff_prover]
proof fn lemma_cap(p: int, m: int, r: int, live: int, cap: int, one: int, b: int)
    requires
        b >= 100,
        one > 0,
        0 <= r,
        0 <= live,
        p * one * b <= m * r * (b + 1) + one * b,
        p * one * b + one * b >= m * r * (b - 1),
        m * b <= live * one * (b + 1),
        m * b >= live * one * (b - 1),
    ensures
        cap * one <= p ==> cap * one * b <= live * r * (b + 3) + b,
        cap * one >= p ==> cap * one * b + b >= live * r * (b - 3),
{
    lemma_cubes(b);
    let n = m * r;
    let lr = live * r;
    let bb = b * b;
    assert(lr >= 0 && bb > 0) by (nonlinear_arith)
        requires
            lr == live * r,
            r >= 0,
            live >= 0,
            bb == b * b,
            b >= 100,
    ;
    assert(p * one * b * b == (p * bb) * one) by (nonlinear_arith)
        requires
            bb == b * b,
    ;
    assert(one * b * b == bb * one) by (nonlinear_arith)
        requires
            bb == b * b,
    ;
    assert(r * (b + 1) >= 0 && r * (b - 1) >= 0) by (nonlinear_arith)
        requires
            r >= 0,
            b >= 100,
    ;
    if cap * one <= p {
        let square = (b + 1) * (b + 1);
        lemma_scale(p * one * b, n * (b + 1) + one * b, b);
        lemma_mul_is_distributive_add_other_way(b, n * (b + 1), one * b);
        assert(n * (b + 1) * b == (m * b) * (r * (b + 1))) by (nonlinear_arith)
            requires
                n == m * r,
        ;
        lemma_scale(m * b, live * one * (b + 1), r * (b + 1));
        assert(live * one * (b + 1) * (r * (b + 1)) == (lr * square) * one) by (nonlinear_arith)
            requires
                lr == live * r,
                square == (b + 1) * (b + 1),
        ;
        assert((lr * square) * one + bb * one == (lr * square + bb) * one) by (nonlinear_arith);
        lemma_cancel(p * bb, lr * square + bb, one);
        lemma_scale(cap * one, p, bb);
        lemma_scale(square, b * (b + 3), lr);
        assert(cap * one * bb == (cap * one * b) * b) by (nonlinear_arith)
            requires
                bb == b * b,
        ;
        assert(b * (b + 3) * lr + bb == (lr * (b + 3) + b) * b) by (nonlinear_arith)
            requires
                bb == b * b,
        ;
        lemma_mul_is_commutative(square, lr);
        lemma_cancel(cap * one * b, lr * (b + 3) + b, b);
    }
    if cap * one >= p {
        let low = (b - 1) * (b - 1);
        assert(n * b == n * (b - 1) + n) by (nonlinear_arith);
        lemma_scale(n * (b - 1), p * one * b + one * b, b);
        lemma_mul_is_distributive_add_other_way(b, p * one * b, one * b);
        assert(n * (b - 1) * b == (m * b) * (r * (b - 1))) by (nonlinear_arith)
            requires
                n == m * r,
        ;
        lemma_scale(live * one * (b - 1), m * b, r * (b - 1));
        assert(live * one * (b - 1) * (r * (b - 1)) == (lr * low) * one) by (nonlinear_arith)
            requires
                lr == live * r,
                low == (b - 1) * (b - 1),
        ;
        assert((p * bb) * one + bb * one == (p * bb + bb) * one) by (nonlinear_arith);
        lemma_cancel(lr * low, p * bb + bb, one);
        lemma_scale(p, cap * one, bb);
        lemma_scale(b * (b - 3), low, lr);
        lemma_mul_is_commutative(low, lr);
        assert(cap * one * bb + bb == (cap * one * b + b) * b) by (nonlinear_arith)
            requires
                bb == b * b,
        ;
        assert(b * (b - 3) * lr == (lr * (b - 3)) * b) by (nonlinear_arith);
        lemma_cancel(lr * (b - 3), cap * one * b + b, b);
    }
}

/// The participation cap is the live volume times the participation rate, up to three parts in
/// `2^53` and the fraction that is cut off; where that is more than a `u64` can hold, it is the
/// largest one.
#[verifier::spinoff_prover]
pub proof fn law_cap_is_the_rate_of_the_volume(scheduler: SchedulerModel, live: u64)
    requires
        scheduler.max_participation_rate@ is Finite,
        scheduler.max_participation_rate@.nonnegative(),
    ensures
        ({
            let rate = scheduler.max_participation_rate@->Finite_magnitude;
            let cap = scheduler.participation_cap(live);
            &&& cap * one_in_units() * parts() <= live * rate * (parts() + 3) + parts()
            &&& cap == u64::MAX || (cap + 1) * one_in_units() * parts() + parts() >= live * rate * (
            parts() - 3)
        }),
{
    let one = one_in_units();
    let b = parts();
    let rate = scheduler.max_participation_rate@;
    let r = rate->Finite_magnitude as int;
    let cap = scheduler.participation_cap(live);
    lemma_units_are_small();
    lemma_cubes(b as int);
    lemma_of_u64(live);
    let m = Value::of_int(live as nat)->Finite_magnitude;
    let p = round_ratio(m * rate->Finite_magnitude, one);
    let n = m * rate->Finite_magnitude;
    lemma_rounding_is_close(n, one);
    lemma_round_ratio_of_zero(one);
    lemma_pow2_pos(END_EXPONENT as nat);
    assert(r == 0 ==> n == 0) by (nonlinear_arith)
        requires
            n == m * r,
    ;
    lemma_whole_part(n, one);
    assert(cap * one <= p && (cap == u64::MAX || p <= (cap + 1) * one)) by {
        if rate->Finite_negative {
            lemma_basic_div(0, one as int);
        }
    }
    lemma_cap(p as int, m as int, r, live as int, cap as int, one as int, b as int);
    if cap < u64::MAX {
        lemma_cap(p as int, m as int, r, live as int, cap + 1, one as int, b as int);
    }
}

/// Where the slice times the live volume over the expected one is a binary64 number at each step,
/// the target is that number rounded to the closest whole quantity, and one that is exactly in
/// the middle is rounded up.
#[verifier::spinoff_prover]
pub proof fn law_exact_target_is_rounded_half_up(
    scheduler: SchedulerModel,
    live: u64,
    expected: u64,
    ratio: nat,
    scaled: nat,
)
    requires
        scheduler.base_slice() is Finite,
        !(scheduler.base_slice()->Finite_negative),
        live <= SIGNIFICAND_END,
        0 < expected <= SIGNIFICAND_END,
        ratio * expected == live * one_in_units(),
        representable(ratio),
        ratio < pow2(END_EXPONENT as nat),
        scaled * one_in_units() == scheduler.base_slice()->Finite_magnitude * ratio,
        representable(scaled),
        representable(scaled + pow2((UNIT_EXPONENT - 1) as nat)),
        scaled + pow2((UNIT_EXPONENT - 1) as nat) < pow2(END_EXPONENT as nat),
    ensures
        ({
            let target = scheduler.target(live, expected);
            let one = one_in_units();
            &&& 2 * target * one <= 2 * scaled + one
            &&& 2 * scaled + one < 2 * (target + 1) * one || target == u64::MAX
        }),
{
    let one = one_in_units();
    let half = pow2((UNIT_EXPONENT - 1) as nat);
    let z = scheduler.base_slice()->Finite_magnitude;
    lemma_units_are_small();
    lemma_pow2_unfold(UNIT_EXPONENT as nat);
    law_small_integers_are_exact(live as nat);
    law_small_integers_are_exact(expected as nat);
    let d = expected as nat * one;
    assert(d > 0 && (live as nat * one) * one == ratio * d) by (nonlinear_arith)
        requires
            d == expected as nat * one,
            ratio * expected == live * one,
            expected > 0,
            one > 0,
    ;
    law_rounding_is_exact(ratio, d);
    assert(volume_ratio(live, expected) == (Value::Finite { negative: false, magnitude: ratio }));
    law_rounding_is_exact(scaled, one);
    lemma_scaled_is_representable(1, (UNIT_EXPONENT - 1) as nat);
    lemma_pow2_strictly_increases((UNIT_EXPONENT - 1) as nat, END_EXPONENT as nat);
    law_rounding_is_exact(half, 2);
    assert(half * 2 == one);
    law_rounding_is_exact(scaled + half, 1);
    lemma_pow2_pos((UNIT_EXPONENT - 1) as nat);
    law_whole_part_is_the_floor(false, scaled + half);
    let target = scheduler.target(live, expected);
    assert(2 * (target * one) == 2 * target * one && 2 * ((target + 1) * one) == 2 * (target + 1)
        * one) by (nonlinear_arith);
}

/// Where the live volume times the participation rate is a binary64 number, the participation cap
/// is its whole part.
#[verifier::spinoff_prover]
pub proof fn law_exact_cap_is_cut_off(scheduler: SchedulerModel, live: u64, exact: nat)
    requires
        scheduler.max_participation_rate@ is Finite,
        !(scheduler.max_participation_rate@->Finite_negative),
        live <= SIGNIFICAND_END,
        exact == live * scheduler.max_participation_rate@->Finite_magnitude,
        representable(exact),
        exact < pow2(END_EXPONENT as nat),
    ensures
        ({
            let cap = scheduler.participation_cap(live);
            &&& cap * one_in_units() <= exact
            &&& exact < (cap + 1) * one_in_units() || cap == u64::MAX
        }),
{
    let one = one_in_units();
    let r = scheduler.max_participation_rate@->Finite_magnitude;
    lemma_units_are_small();
    law_small_integers_are_exact(live as nat);
    assert((live as nat * one) * r == exact * one) by (nonlinear_arith)
        requires
            exact == live * r,
    ;
    law_rounding_is_exact(exact, one);
    law_whole_part_is_the_floor(false, exact);
}

/// Where the elapsed part of the bin is a binary64 number, and what has traded divided by it is
/// one, the bin is heading for the whole part of that.
#[verifier::spinoff_prover]
pub proof fn law_exact_extrapolation_is_cut_off(
    raw_bin_volume: u64,
    elapsed_bin_secs: Value,
    fraction: nat,
    exact: nat,
)
    requires
        elapsed_bin_secs != Value::Nan,
        raw_bin_volume <= SIGNIFICAND_END,
        300 * fraction == counted_seconds(elapsed_bin_secs),
        representable(fraction),
        exact * fraction == raw_bin_volume * one_in_units() * one_in_units(),
        representable(exact),
        exact < pow2(END_EXPONENT as nat),
    ensures
        ({
            let volume = extrapolated_volume(raw_bin_volume, elapsed_bin_secs);
            &&& volume * one_in_units() <= exact
            &&& exact < (volume + 1) * one_in_units() || volume == u64::MAX
        }),
{
    let one = one_in_units();
    lemma_units_are_small();
    lemma_elapsed_fraction(elapsed_bin_secs);
    law_small_integers_are_exact(raw_bin_volume as nat);
    law_rounding_is_exact(fraction, 300);
    assert(fraction * 300 == counted_seconds(elapsed_bin_secs));
    assert((raw_bin_volume as nat * one) * one == exact * fraction);
    law_rounding_is_exact(exact, fraction);
    law_whole_part_is_the_floor(false, exact);
}

/// Without a finite share the slice is nothing: a finite weight among infinite ones is no share,
/// and an infinite one gives no number, so nothing is asked for.
#[verifier::spinoff_prover]
pub proof fn law_infinite_weights_ask_for_nothing(
    scheduler: SchedulerModel,
    live: u64,
    expected: u64,
)
    requires
        suffix_weight(scheduler.weights, scheduler.state.current_bin as nat) == (
        Value::Infinite { negative: false }),
    ensures
        scheduler.target(live, expected) == 0,
        scheduler.child_order(live, expected) == 0,
{
    let one = one_in_units();
    lemma_units_are_small();
    lemma_pow2_pos(END_EXPONENT as nat);
    lemma_of_u64(scheduler.state.remaining_qty);
    lemma_round_ratio_of_zero(one);
    if expected > 0 {
        lemma_ratio(live, expected);
    }
    let weight = scheduler.weights[scheduler.state.current_bin as int]@;
    let base = scheduler.base_slice();
    let x = Value::of_int(scheduler.state.remaining_qty as nat)->Finite_magnitude;
    let p = volume_ratio(live, expected)->Finite_magnitude;
    lemma_mul_basics(x as int);
    lemma_mul_basics(p as int);
    if weight is Finite {
        assert(base is Finite && base->Finite_magnitude == 0);
        assert(base.times(volume_ratio(live, expected))->Finite_magnitude == 0);
        lemma_scaled_is_representable(1, (UNIT_EXPONENT - 1) as nat);
        lemma_pow2_unfold(UNIT_EXPONENT as nat);
        lemma_pow2_pos((UNIT_EXPONENT - 1) as nat);
        lemma_pow2_strictly_increases((UNIT_EXPONENT - 1) as nat, END_EXPONENT as nat);
        let half = pow2((UNIT_EXPONENT - 1) as nat);
        law_rounding_is_exact(half, 2);
        assert(half * 2 == one);
        law_rounding_is_exact(half, 1);
        lemma_basic_div(half as int, one as int);
    } else {
        assert(base == Value::Nan);
    }
}

/// An infinite participation rate allows everything once anything is traded.
#[verifier::spinoff_prover]
pub proof fn law_infinite_rate_allows_everything(scheduler: SchedulerModel, live: u64)
    requires
        scheduler.max_participation_rate@ == (Value::Infinite { negative: false }),
    ensures
        live > 0 ==> scheduler.participation_cap(live) == u64::MAX,
        live == 0 ==> scheduler.participation_cap(live) == 0,
{
    lemma_units_are_small();
    lemma_of_u64(live);
}

} // verus!
