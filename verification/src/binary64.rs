//! IEEE 754 binary64 numbers, computed with integers.
//!
//! A [`Double`] is the bit pattern of an `f64`. Its arithmetic is the correctly rounded one of
//! the standard (round to nearest, ties to even), so it gives the number that the hardware
//! gives, and what it gives is proved.
use crate::rounding::{
    excess_bits, lemma_pow2_constants, lemma_pow2_increases, lemma_round_ratio_of_odd,
    nearest_even, representable, round_ratio, MIN_NORMAL, SIGNIFICAND_END,
};
use vstd::arithmetic::div_mod::*;
use vstd::arithmetic::mul::*;
use vstd::arithmetic::power2::*;
use vstd::prelude::*;

verus! {

/// The binary logarithm of how many units make one: the unit is the smallest positive binary64
/// number, `2^-1074`.
pub const UNIT_EXPONENT: u32 = 1074;

/// The binary logarithm of the first magnitude, in units, that is too large to be finite.
pub const END_EXPONENT: u32 = 2098;

/// The largest power of two by which a significand is scaled.
const MAX_SCALE: u32 = 2045;

/// A number that is being computed is `t * 2^k / 2^BIAS` units, so that `k` is never negative.
const BIAS: u32 = 2048;

/// `2^126` and `2^127`: the range into which a number is shifted before it is rounded.
const SHIFTED_MIN: u128 = 0x4000_0000_0000_0000_0000_0000_0000_0000;

const SHIFTED_END: u128 = 0x8000_0000_0000_0000_0000_0000_0000_0000;

/// Bit 63, the sign.
const SIGN: u64 = 0x8000_0000_0000_0000;

/// The bit pattern of positive infinity.
const INFINITY: u64 = 0x7ff0_0000_0000_0000;

/// The bit pattern that stands for every result that is not a number.
const NOT_A_NUMBER: u64 = 0x7ff8_0000_0000_0000;

/// What a binary64 number is: a finite one has a sign and a magnitude, counted in units.
pub enum Value {
    Nan,
    Infinite { negative: bool },
    Finite { negative: bool, magnitude: nat },
}

/// How many units make one.
pub open spec fn one_in_units() -> nat {
    pow2(UNIT_EXPONENT as nat)
}

impl Value {
    pub open spec fn signed(negative: bool, magnitude: nat) -> int {
        if negative {
            -(magnitude as int)
        } else {
            magnitude as int
        }
    }

    /// Whether this is a value that binary64 has.
    pub open spec fn canonical(self) -> bool {
        self matches Value::Finite { magnitude, .. } ==> representable(magnitude) && magnitude
            < pow2(END_EXPONENT as nat)
    }

    /// The number closest to `n / d` units, ties to even; an infinity where that is too large.
    pub open spec fn rounded(negative: bool, n: nat, d: nat) -> Value {
        let magnitude = round_ratio(n, d);
        if magnitude < pow2(END_EXPONENT as nat) {
            Value::Finite { negative, magnitude }
        } else {
            Value::Infinite { negative }
        }
    }

    /// The number closest to `n / d`.
    pub open spec fn of_ratio(n: nat, d: nat) -> Value {
        Value::rounded(false, n * one_in_units(), d)
    }

    /// The number closest to `n`.
    pub open spec fn of_int(n: nat) -> Value {
        Value::of_ratio(n, 1)
    }

    pub open spec fn plus(self, other: Value) -> Value {
        match (self, other) {
            (Value::Nan, _) | (_, Value::Nan) => Value::Nan,
            (Value::Infinite { negative: a }, Value::Infinite { negative: b }) => if a == b {
                self
            } else {
                Value::Nan
            },
            (Value::Infinite { .. }, _) => self,
            (_, Value::Infinite { .. }) => other,
            (
                Value::Finite { negative: a, magnitude: x },
                Value::Finite { negative: b, magnitude: y },
            ) => {
                let sum = Value::signed(a, x) + Value::signed(b, y);
                if sum == 0 {
                    Value::Finite { negative: a && b, magnitude: 0 }
                } else if sum < 0 {
                    Value::rounded(true, (-sum) as nat, 1)
                } else {
                    Value::rounded(false, sum as nat, 1)
                }
            },
        }
    }

    pub open spec fn times(self, other: Value) -> Value {
        match (self, other) {
            (Value::Nan, _) | (_, Value::Nan) => Value::Nan,
            (Value::Infinite { negative: a }, Value::Infinite { negative: b }) => Value::Infinite {
                negative: a != b,
            },
            (Value::Infinite { negative: a }, Value::Finite { negative: b, magnitude }) | (
                Value::Finite { negative: b, magnitude },
                Value::Infinite { negative: a },
            ) => if magnitude == 0 {
                Value::Nan
            } else {
                Value::Infinite { negative: a != b }
            },
            (
                Value::Finite { negative: a, magnitude: x },
                Value::Finite { negative: b, magnitude: y },
            ) => Value::rounded(a != b, x * y, one_in_units()),
        }
    }

    pub open spec fn over(self, other: Value) -> Value {
        match (self, other) {
            (Value::Nan, _) | (_, Value::Nan) => Value::Nan,
            (Value::Infinite { .. }, Value::Infinite { .. }) => Value::Nan,
            (Value::Infinite { negative: a }, Value::Finite { negative: b, .. }) => Value::Infinite {
                negative: a != b,
            },
            (Value::Finite { negative: a, .. }, Value::Infinite { negative: b }) => Value::Finite {
                negative: a != b,
                magnitude: 0,
            },
            (
                Value::Finite { negative: a, magnitude: x },
                Value::Finite { negative: b, magnitude: y },
            ) => if y == 0 {
                if x == 0 {
                    Value::Nan
                } else {
                    Value::Infinite { negative: a != b }
                }
            } else {
                Value::rounded(a != b, x * one_in_units(), y)
            },
        }
    }

    /// The order of the numbers; what is not a number is below and above nothing.
    pub open spec fn less_than(self, other: Value) -> bool {
        match (self, other) {
            (Value::Nan, _) | (_, Value::Nan) => false,
            (Value::Infinite { negative: a }, Value::Infinite { negative: b }) => a && !b,
            (Value::Infinite { negative: a }, _) => a,
            (_, Value::Infinite { negative: b }) => !b,
            (
                Value::Finite { negative: a, magnitude: x },
                Value::Finite { negative: b, magnitude: y },
            ) => Value::signed(a, x) < Value::signed(b, y),
        }
    }

    pub open spec fn clamped(self, low: Value, high: Value) -> Value {
        if self.less_than(low) {
            low
        } else if high.less_than(self) {
            high
        } else {
            self
        }
    }

    /// Whether this is a number from zero on; negative zero is one.
    pub open spec fn nonnegative(self) -> bool {
        match self {
            Value::Nan => false,
            Value::Infinite { negative } => !negative,
            Value::Finite { negative, magnitude } => !negative || magnitude == 0,
        }
    }

    /// Whether these are numbers from zero on, this one not above the other.
    pub open spec fn at_most(self, other: Value) -> bool {
        &&& self.nonnegative()
        &&& other.nonnegative()
        &&& !other.less_than(self)
    }

    /// The whole part, held within the range of `u64`; zero for what is not a number.
    pub open spec fn to_u64(self) -> u64 {
        match self {
            Value::Nan => 0,
            Value::Infinite { negative } => if negative {
                0
            } else {
                u64::MAX
            },
            Value::Finite { negative, magnitude } => {
                let whole = magnitude / one_in_units();
                if negative {
                    0
                } else if whole > u64::MAX {
                    u64::MAX
                } else {
                    whole as u64
                }
            },
        }
    }
}

/// The binary64 number whose bit pattern is `bits`: a sign bit, eleven bits of exponent and
/// fifty-two bits of fraction.
pub open spec fn decode(bits: u64) -> Value {
    let negative = bits >= 0x8000_0000_0000_0000;
    let rest = bits % 0x8000_0000_0000_0000;
    let exponent = rest / MIN_NORMAL;
    let fraction = rest % MIN_NORMAL;
    if exponent == 2047 {
        if fraction == 0 {
            Value::Infinite { negative }
        } else {
            Value::Nan
        }
    } else if exponent == 0 {
        Value::Finite { negative, magnitude: fraction as nat }
    } else {
        Value::Finite {
            negative,
            magnitude: (MIN_NORMAL + fraction) as nat * pow2((exponent - 1) as nat),
        }
    }
}

/// A binary64 number, as its bit pattern.
#[derive(Clone, Copy, Debug)]
pub struct Double {
    pub bits: u64,
}

impl View for Double {
    type V = Value;

    open spec fn view(&self) -> Value {
        decode(self.bits)
    }
}

/// A number taken apart: a finite one is `significand * 2^scale` units.
enum Parts {
    Nan,
    Infinite { negative: bool },
    Finite { negative: bool, significand: u64, scale: u32 },
}

impl Parts {
    spec fn stands_for(self, value: Value) -> bool {
        match self {
            Parts::Nan => value == Value::Nan,
            Parts::Infinite { negative } => value == (Value::Infinite { negative }),
            Parts::Finite { negative, significand, scale } => {
                &&& significand < SIGNIFICAND_END
                &&& scale <= MAX_SCALE
                &&& scale > 0 ==> significand >= MIN_NORMAL
                &&& value == (Value::Finite {
                    negative,
                    magnitude: significand as nat * pow2(scale as nat),
                })
            },
        }
    }
}

proof fn lemma_encoding(negative: bool, s: u64, h: u64)
    requires
        s <= SIGNIFICAND_END,
        h <= MAX_SCALE,
        h > 0 ==> s >= MIN_NORMAL,
    ensures
        h * MIN_NORMAL + s <= INFINITY,
        ({
            let bits = ((if negative {
                SIGN as int
            } else {
                0
            }) + h * MIN_NORMAL + s) as u64;
            let magnitude = s as nat * pow2(h as nat);
            decode(bits) == if magnitude < pow2(END_EXPONENT as nat) {
                Value::Finite { negative, magnitude }
            } else {
                Value::Infinite { negative }
            }
        }),
{
    lemma_pow2_constants();
    let rest = (h * MIN_NORMAL + s) as u64;
    let bits = ((if negative {
        SIGN as int
    } else {
        0
    }) + h * MIN_NORMAL + s) as u64;
    assert(bits % 0x8000_0000_0000_0000 == rest);
    let magnitude = s as nat * pow2(h as nat);
    let end = pow2(END_EXPONENT as nat);
    lemma_pow2_adds(53, h as nat);
    lemma_pow2_pos(h as nat);
    assert(magnitude <= SIGNIFICAND_END as nat * pow2(h as nat)) by (nonlinear_arith)
        requires
            magnitude == s as nat * pow2(h as nat),
            s <= SIGNIFICAND_END,
    ;
    if s < SIGNIFICAND_END {
        assert(magnitude < SIGNIFICAND_END as nat * pow2(h as nat)) by (nonlinear_arith)
            requires
                magnitude == s as nat * pow2(h as nat),
                s < SIGNIFICAND_END,
                pow2(h as nat) > 0,
        ;
        lemma_pow2_increases(53 + h as nat, END_EXPONENT as nat);
        assert(magnitude < end);
        if s < MIN_NORMAL {
            assert(rest / MIN_NORMAL == 0);
            assert(rest % MIN_NORMAL == s);
        } else {
            assert(rest / MIN_NORMAL == h + 1);
            assert(rest % MIN_NORMAL == s - MIN_NORMAL);
        }
    } else {
        assert(magnitude == pow2(53 + h as nat));
        assert(rest / MIN_NORMAL == h + 2);
        assert(rest % MIN_NORMAL == 0);
        if h == MAX_SCALE {
            assert(magnitude == end);
        } else {
            lemma_pow2_strictly_increases(53 + h as nat, END_EXPONENT as nat);
            lemma_pow2_unfold(h as nat + 1);
            assert(MIN_NORMAL as nat * pow2(h as nat + 1) == magnitude) by (nonlinear_arith)
                requires
                    magnitude == SIGNIFICAND_END as nat * pow2(h as nat),
                    pow2(h as nat + 1) == 2 * pow2(h as nat),
                    SIGNIFICAND_END == 2 * MIN_NORMAL,
            ;
        }
    }
}

proof fn lemma_pow2_large_constants()
    ensures
        pow2(4) == 0x10,
        pow2(8) == 0x100,
        pow2(16) == 0x1_0000,
        pow2(32) == 0x1_0000_0000,
        pow2(64) == 0x1_0000_0000_0000_0000,
        pow2(126) == SHIFTED_MIN,
        pow2(127) == SHIFTED_END,
{
    lemma2_to64();
    lemma2_to64_rest();
    lemma_pow2_adds(62, 64);
    lemma_pow2_adds(63, 64);
}

proof fn lemma_shift(t: nat, k: nat, j: nat)
    requires
        j <= k,
    ensures
        (t * pow2(j)) * pow2((k - j) as nat) == t * pow2(k),
{
    lemma_pow2_adds(j, (k - j) as nat);
    lemma_mul_is_associative(t as int, pow2(j) as int, pow2((k - j) as nat) as int);
}

/// Shifts `t` up until bit 126 is its highest one.
fn shifted(t: u128, k: u32) -> (shifted: (u128, u32))
    requires
        0 < t < SHIFTED_END,
        k >= 127,
    ensures
        SHIFTED_MIN <= shifted.0 < SHIFTED_END,
        k - 127 <= shifted.1 <= k,
        shifted.0 as nat * pow2(shifted.1 as nat) == t as nat * pow2(k as nat),
{
    let mut t: u128 = t;
    let mut k: u32 = k;
    proof {
        lemma_pow2_large_constants();
        lemma_pow2_constants();
    }
    if t < 0x8000_0000_0000_0000 {
        proof {
            lemma_shift(t as nat, k as nat, 64);
        }
        t = t * 0x1_0000_0000_0000_0000;
        k = k - 64;
    }
    if t < 0x8000_0000_0000_0000_0000_0000 {
        proof {
            lemma_shift(t as nat, k as nat, 32);
        }
        t = t * 0x1_0000_0000;
        k = k - 32;
    }
    if t < 0x8000_0000_0000_0000_0000_0000_0000 {
        proof {
            lemma_shift(t as nat, k as nat, 16);
        }
        t = t * 0x1_0000;
        k = k - 16;
    }
    if t < 0x80_0000_0000_0000_0000_0000_0000_0000 {
        proof {
            lemma_shift(t as nat, k as nat, 8);
        }
        t = t * 0x100;
        k = k - 8;
    }
    if t < 0x800_0000_0000_0000_0000_0000_0000_0000 {
        proof {
            lemma_shift(t as nat, k as nat, 4);
        }
        t = t * 0x10;
        k = k - 4;
    }
    if t < 0x2000_0000_0000_0000_0000_0000_0000_0000 {
        proof {
            lemma_shift(t as nat, k as nat, 2);
        }
        t = t * 4;
        k = k - 2;
    }
    if t < SHIFTED_MIN {
        proof {
            lemma_shift(t as nat, k as nat, 1);
        }
        t = t * 2;
        k = k - 1;
    }
    (t, k)
}

proof fn lemma_one_shifted_left(n: u128)
    requires
        n < 128,
    ensures
        (1u128 << n) == pow2(n as nat),
    decreases n,
{
    if n == 0 {
        assert(1u128 << 0u128 == 1u128) by (bit_vector);
        lemma_pow2_constants();
    } else {
        let m = (n - 1) as u128;
        assert(1u128 << n == 2 * (1u128 << m)) by (bit_vector)
            requires
                0 < n < 128,
                m == n - 1,
        ;
        lemma_one_shifted_left(m);
        lemma_pow2_unfold(n as nat);
    }
}

/// The natural number closest to `t / 2^drop`, ties to even.
fn nearest_after_drop(t: u128, drop: u32) -> (nearest: u128)
    requires
        t < SHIFTED_END,
        0 < drop,
    ensures
        nearest == nearest_even(t as nat, pow2(drop as nat)),
{
    proof {
        lemma_pow2_large_constants();
        lemma_pow2_pos(drop as nat);
    }
    if drop >= 128 {
        proof {
            lemma_pow2_unfold(128);
            lemma_pow2_increases(128, drop as nat);
            lemma_basic_div(t as int, pow2(drop as nat) as int);
            lemma_small_mod(t as nat, pow2(drop as nat));
        }
        0
    } else {
        let divisor: u128 = 1u128 << (drop as u128);
        proof {
            lemma_one_shifted_left(drop as u128);
        }
        let quotient: u128 = t / divisor;
        let rest: u128 = t % divisor;
        if rest < divisor - rest || (rest == divisor - rest && quotient % 2 == 0) {
            quotient
        } else {
            proof {
                lemma_div_nonincreasing(t as int, divisor as int);
            }
            quotient + 1
        }
    }
}

/// `t * 2^k / 2^BIAS` units, rounded.
fn round_scaled(negative: bool, t: u128, k: u32) -> (number: Double)
    requires
        t < SHIFTED_END,
        127 <= k <= 10_000,
    ensures
        number@ == Value::rounded(negative, t as nat * pow2(k as nat), pow2(BIAS as nat)),
{
    let ghost n = t as nat * pow2(k as nat);
    let ghost d = pow2(BIAS as nat);
    proof {
        lemma_pow2_constants();
        lemma_pow2_large_constants();
        lemma_pow2_pos(BIAS as nat);
        lemma_pow2_pos(END_EXPONENT as nat);
    }
    if t == 0 {
        proof {
            lemma_mul_basics(pow2(k as nat) as int);
            crate::rounding::lemma_round_ratio_of_zero(d);
        }
        return Double::zero(negative);
    }
    let (t, k) = shifted(t, k);
    let (drop, scale): (u32, u32) = if k + 74 > BIAS {
        (74, k + 74 - BIAS)
    } else {
        (BIAS - k, 0)
    };
    let ghost h = scale as nat;
    proof {
        lemma_shifted_excess(t as nat, k as nat, h);
        lemma_shifted_nearest(t as nat, k as nat, h, drop as nat);
        lemma_shifted_nearest_bounds(t as nat, h, drop as nat);
    }
    let significand: u128 = nearest_after_drop(t, drop);
    assert(round_ratio(n, d) == significand as nat * pow2(h));
    if scale > MAX_SCALE {
        proof {
            lemma_pow2_adds(52, h);
            lemma_pow2_increases(END_EXPONENT as nat, 52 + h);
            assert(significand as nat * pow2(h) >= pow2(52) * pow2(h)) by (nonlinear_arith)
                requires
                    significand >= pow2(52),
            ;
        }
        return Double::infinity(negative);
    }
    proof {
        lemma_encoding(negative, significand as u64, scale as u64);
    }
    Double::with_sign(negative, scale as u64 * MIN_NORMAL + significand as u64)
}

/// How far a shifted number is above 53 bits.
proof fn lemma_shifted_excess(t: nat, k: nat, h: nat)
    requires
        SHIFTED_MIN <= t < SHIFTED_END,
        h == if k + 74 > BIAS {
            k + 74 - BIAS
        } else {
            0
        },
    ensures
        excess_bits((t * pow2(k)) / pow2(BIAS as nat)) == h,
{
    lemma_pow2_large_constants();
    let d = pow2(BIAS as nat);
    let n = t * pow2(k);
    lemma_pow2_pos(BIAS as nat);
    lemma_pow2_pos(k);
    lemma_pow2_adds(127, k);
    lemma_pow2_adds(126, k);
    lemma_pow2_adds(BIAS as nat, 53 + h);
    lemma_pow2_adds(BIAS as nat, 52 + h);
    assert(n < pow2(127) * pow2(k)) by (nonlinear_arith)
        requires
            n == t * pow2(k),
            t < pow2(127),
            pow2(k) > 0,
    ;
    assert(pow2(126) * pow2(k) <= n) by (nonlinear_arith)
        requires
            n == t * pow2(k),
            pow2(126) <= t,
    ;
    lemma_pow2_increases(127 + k, BIAS as nat + 53 + h);
    crate::rounding::lemma_excess_bits_of_ratio(n, d, h);
}

proof fn lemma_shifted_nearest(t: nat, k: nat, h: nat, drop: nat)
    requires
        drop == BIAS + h - k,
    ensures
        nearest_even(t * pow2(k), pow2(BIAS as nat) * pow2(h)) == nearest_even(t, pow2(drop)),
{
    lemma_pow2_pos(k);
    lemma_pow2_pos(drop);
    lemma_pow2_adds(BIAS as nat, h);
    lemma_pow2_adds(drop, k);
    crate::rounding::lemma_nearest_even_cancels(t, pow2(drop), pow2(k));
}

proof fn lemma_shifted_nearest_bounds(t: nat, h: nat, drop: nat)
    requires
        SHIFTED_MIN <= t < SHIFTED_END,
        drop >= 74,
        h > 0 ==> drop == 74,
    ensures
        nearest_even(t, pow2(drop)) <= SIGNIFICAND_END,
        h > 0 ==> nearest_even(t, pow2(drop)) >= MIN_NORMAL,
{
    lemma_pow2_constants();
    lemma_pow2_large_constants();
    lemma_pow2_adds(52, 74);
    lemma_pow2_adds(53, 74);
    lemma_pow2_increases(74, drop);
    let p = pow2(drop);
    let q = t / p;
    lemma_fundamental_div_mod(t as int, p as int);
    assert(q < SIGNIFICAND_END) by (nonlinear_arith)
        requires
            t == p * q + t % p,
            0 <= t % p,
            t < SIGNIFICAND_END * pow2(74),
            pow2(74) <= p,
            pow2(74) > 0,
    ;
    if h > 0 {
        if q < MIN_NORMAL {
            assert(p * (q + 1) <= p * MIN_NORMAL) by (nonlinear_arith)
                requires
                    q + 1 <= MIN_NORMAL,
            ;
            assert(p * (q + 1) == p * q + p) by (nonlinear_arith);
        }
    }
}

impl Double {
    /// The number with the given bit pattern.
    pub fn from_bits(bits: u64) -> (number: Double)
        ensures
            number.bits == bits,
            number@ == decode(bits),
    {
        Double { bits }
    }

    fn parts(self) -> (parts: Parts)
        ensures
            parts.stands_for(self@),
    {
        let negative = self.bits >= SIGN;
        let rest: u64 = self.bits % SIGN;
        let exponent: u64 = rest / MIN_NORMAL;
        let fraction: u64 = rest % MIN_NORMAL;
        proof {
            lemma_pow2_constants();
        }
        if exponent == 2047 {
            if fraction == 0 {
                Parts::Infinite { negative }
            } else {
                Parts::Nan
            }
        } else if exponent == 0 {
            Parts::Finite { negative, significand: fraction, scale: 0 }
        } else {
            Parts::Finite {
                negative,
                significand: MIN_NORMAL + fraction,
                scale: (exponent - 1) as u32,
            }
        }
    }

    fn with_sign(negative: bool, rest: u64) -> (number: Double)
        requires
            rest <= INFINITY,
        ensures
            number.bits == (if negative {
                SIGN as int
            } else {
                0
            }) + rest,
    {
        if negative {
            Double { bits: SIGN + rest }
        } else {
            Double { bits: rest }
        }
    }

    fn nan() -> (number: Double)
        ensures
            number@ == Value::Nan,
    {
        Double { bits: NOT_A_NUMBER }
    }

    fn infinity(negative: bool) -> (number: Double)
        ensures
            number@ == (Value::Infinite { negative }),
    {
        Double::with_sign(negative, INFINITY)
    }

    fn zero(negative: bool) -> (number: Double)
        ensures
            number@ == (Value::Finite { negative, magnitude: 0 }),
    {
        Double::with_sign(negative, 0)
    }

    /// One.
    pub fn one() -> (number: Double)
        ensures
            number@ == Value::of_int(1),
    {
        proof {
            lemma_pow2_constants();
            lemma_normal_ratio(0x3ff0_0000_0000_0000, 0x10_0000_0000_0000, 1022, 1, 1);
        }
        Double { bits: 0x3ff0_0000_0000_0000 }
    }

    /// One half.
    pub fn half() -> (number: Double)
        ensures
            number@ == Value::of_ratio(1, 2),
    {
        proof {
            lemma_pow2_constants();
            lemma_normal_ratio(0x3fe0_0000_0000_0000, 0x10_0000_0000_0000, 1021, 1, 2);
        }
        Double { bits: 0x3fe0_0000_0000_0000 }
    }

    /// The number closest to one hundredth.
    pub fn hundredth() -> (number: Double)
        ensures
            number@ == Value::of_ratio(1, 100),
    {
        proof {
            lemma2_to64_rest();
            lemma_normal_ratio(0x3f84_7ae1_47ae_147b, 0x14_7ae1_47ae_147b, 1015, 1, 100);
        }
        Double { bits: 0x3f84_7ae1_47ae_147b }
    }

    /// `self * other`, correctly rounded.
    pub fn times(self, other: Double) -> (product: Double)
        ensures
            product@ == self@.times(other@),
    {
        match (self.parts(), other.parts()) {
            (Parts::Nan, _) => Double::nan(),
            (_, Parts::Nan) => Double::nan(),
            (Parts::Infinite { negative: a }, Parts::Infinite { negative: b }) => {
                Double::infinity(a != b)
            },
            (Parts::Infinite { negative: a }, Parts::Finite { negative: b, significand, scale }) => {
                proof {
                    lemma_zero_magnitude(significand, scale);
                }
                if significand == 0 {
                    Double::nan()
                } else {
                    Double::infinity(a != b)
                }
            },
            (Parts::Finite { negative: b, significand, scale }, Parts::Infinite { negative: a }) => {
                proof {
                    lemma_zero_magnitude(significand, scale);
                }
                if significand == 0 {
                    Double::nan()
                } else {
                    Double::infinity(a != b)
                }
            },
            (
                Parts::Finite { negative: a, significand: s1, scale: h1 },
                Parts::Finite { negative: b, significand: s2, scale: h2 },
            ) => {
                let k: u32 = h1 + h2 + (BIAS - UNIT_EXPONENT);
                proof {
                    lemma_product(s1, h1, s2, h2);
                    assert(s1 as u128 * s2 as u128 <= SIGNIFICAND_END as u128
                        * SIGNIFICAND_END as u128) by (nonlinear_arith)
                        requires
                            s1 <= SIGNIFICAND_END,
                            s2 <= SIGNIFICAND_END,
                    ;
                }
                round_scaled(a != b, s1 as u128 * s2 as u128, k)
            },
        }
    }

    /// `self / other`, correctly rounded.
    pub fn over(self, other: Double) -> (quotient: Double)
        ensures
            quotient@ == self@.over(other@),
    {
        match (self.parts(), other.parts()) {
            (Parts::Nan, _) => Double::nan(),
            (_, Parts::Nan) => Double::nan(),
            (Parts::Infinite { .. }, Parts::Infinite { .. }) => Double::nan(),
            (Parts::Infinite { negative: a }, Parts::Finite { negative: b, .. }) => {
                Double::infinity(a != b)
            },
            (Parts::Finite { negative: a, .. }, Parts::Infinite { negative: b }) => {
                Double::zero(a != b)
            },
            (
                Parts::Finite { negative: a, significand: s1, scale: h1 },
                Parts::Finite { negative: b, significand: s2, scale: h2 },
            ) => {
                proof {
                    lemma_zero_magnitude(s1, h1);
                    lemma_zero_magnitude(s2, h2);
                }
                if s2 == 0 {
                    if s1 == 0 {
                        Double::nan()
                    } else {
                        Double::infinity(a != b)
                    }
                } else if s1 == 0 {
                    proof {
                        lemma_mul_basics(one_in_units() as int);
                        lemma_pow2_pos(END_EXPONENT as nat);
                        crate::rounding::lemma_round_ratio_of_zero(s2 as nat * pow2(h2 as nat));
                    }
                    Double::zero(a != b)
                } else {
                    let (high, low): (u128, u32) = shifted(s1 as u128, 127);
                    let k: u32 = low + h1 + (UNIT_EXPONENT + BIAS - 127) - h2;
                    let floor: u128 = high / (s2 as u128);
                    let t: u128 = if high % (s2 as u128) == 0 || floor % 2 == 1 {
                        floor
                    } else {
                        floor + 1
                    };
                    proof {
                        lemma_quotient_size(high, s2);
                        lemma_quotient(s1, h1, s2, h2, high, low, floor as nat, t as nat);
                    }
                    round_scaled(a != b, t, k)
                }
            },
        }
    }

    /// `self + other`, correctly rounded.
    pub fn plus(self, other: Double) -> (sum: Double)
        ensures
            sum@ == self@.plus(other@),
    {
        match (self.parts(), other.parts()) {
            (Parts::Nan, _) => Double::nan(),
            (_, Parts::Nan) => Double::nan(),
            (Parts::Infinite { negative: a }, Parts::Infinite { negative: b }) => {
                if a == b {
                    Double::infinity(a)
                } else {
                    Double::nan()
                }
            },
            (Parts::Infinite { negative }, Parts::Finite { .. }) => Double::infinity(negative),
            (Parts::Finite { .. }, Parts::Infinite { negative }) => Double::infinity(negative),
            (
                Parts::Finite { negative: a, significand: s1, scale: h1 },
                Parts::Finite { negative: b, significand: s2, scale: h2 },
            ) => {
                if magnitude_less_than(s1, h1, s2, h2) {
                    sum_of_finite(b, s2, h2, a, s1, h1)
                } else {
                    sum_of_finite(a, s1, h1, b, s2, h2)
                }
            },
        }
    }

    /// Whether `self < other`.
    pub fn less_than(self, other: Double) -> (less: bool)
        ensures
            less == self@.less_than(other@),
    {
        match (self.parts(), other.parts()) {
            (Parts::Nan, _) => false,
            (_, Parts::Nan) => false,
            (Parts::Infinite { negative: a }, Parts::Infinite { negative: b }) => a && !b,
            (Parts::Infinite { negative: a }, Parts::Finite { .. }) => a,
            (Parts::Finite { .. }, Parts::Infinite { negative: b }) => !b,
            (
                Parts::Finite { negative: a, significand: s1, scale: h1 },
                Parts::Finite { negative: b, significand: s2, scale: h2 },
            ) => {
                proof {
                    lemma_zero_magnitude(s1, h1);
                    lemma_zero_magnitude(s2, h2);
                }
                if a && b {
                    magnitude_less_than(s2, h2, s1, h1)
                } else if a {
                    s1 > 0 || s2 > 0
                } else if b {
                    false
                } else {
                    magnitude_less_than(s1, h1, s2, h2)
                }
            },
        }
    }

    /// `self`, or the bound that it lies beyond.
    pub fn clamped(self, low: Double, high: Double) -> (number: Double)
        ensures
            number@ == self@.clamped(low@, high@),
    {
        if self.less_than(low) {
            low
        } else if high.less_than(self) {
            high
        } else {
            self
        }
    }

    /// The whole part, held within the range of `u64`; zero for what is not a number.
    pub fn to_u64(self) -> (whole: u64)
        ensures
            whole == self@.to_u64(),
    {
        match self.parts() {
            Parts::Nan => 0,
            Parts::Infinite { negative } => {
                if negative {
                    0
                } else {
                    u64::MAX
                }
            },
            Parts::Finite { negative, significand, scale } => {
                if negative {
                    0
                } else if scale >= UNIT_EXPONENT {
                    let up: u32 = scale - UNIT_EXPONENT;
                    proof {
                        lemma_whole_part_up(significand, scale, up as nat);
                    }
                    if up >= 12 {
                        u64::MAX
                    } else {
                        proof {
                            lemma_one_shifted_left(up as u128);
                        }
                        ((significand as u128) * (1u128 << (up as u128))) as u64
                    }
                } else {
                    let down: u32 = UNIT_EXPONENT - scale;
                    proof {
                        lemma_whole_part_down(significand, scale, down as nat);
                    }
                    if down >= 53 {
                        0
                    } else {
                        proof {
                            lemma_one_shifted_left(down as u128);
                            lemma_pow2_pos(down as nat);
                        }
                        ((significand as u128) / (1u128 << (down as u128))) as u64
                    }
                }
            },
        }
    }

    /// The number closest to `n`.
    pub fn from_u64(n: u64) -> (number: Double)
        ensures
            number@ == Value::of_int(n as nat),
    {
        proof {
            lemma_of_int(n);
        }
        round_scaled(false, n as u128, UNIT_EXPONENT + BIAS)
    }
}

/// A bit pattern is that of `n / d` where its significand is the one of `n / d`.
pub proof fn lemma_normal_ratio(bits: u64, s: u64, h: u64, n: nat, d: nat)
    requires
        MIN_NORMAL <= s < SIGNIFICAND_END,
        h <= UNIT_EXPONENT,
        bits == h * MIN_NORMAL + s,
        d > 0,
        d * MIN_NORMAL <= n * pow2((UNIT_EXPONENT - h) as nat) < d * SIGNIFICAND_END,
        nearest_even(n * pow2((UNIT_EXPONENT - h) as nat), d) == s,
    ensures
        decode(bits) == Value::of_ratio(n, d),
{
    lemma_pow2_constants();
    lemma_encoding(false, s, h);
    let g = (UNIT_EXPONENT - h) as nat;
    let p = pow2(h as nat);
    lemma_pow2_pos(h as nat);
    lemma_pow2_adds(g, h as nat);
    lemma_pow2_adds(52, h as nat);
    lemma_pow2_adds(53, h as nat);
    assert(n * one_in_units() == (n * pow2(g)) * p) by (nonlinear_arith)
        requires
            one_in_units() == pow2(g) * p,
    ;
    assert(d * pow2(52 + h as nat) <= (n * pow2(g)) * p < d * pow2(53 + h as nat))
        by (nonlinear_arith)
        requires
            d * MIN_NORMAL <= n * pow2(g) < d * SIGNIFICAND_END,
            pow2(52 + h as nat) == MIN_NORMAL as nat * p,
            pow2(53 + h as nat) == SIGNIFICAND_END as nat * p,
            p > 0,
    ;
    crate::rounding::lemma_excess_bits_of_ratio(n * one_in_units(), d, h as nat);
    crate::rounding::lemma_nearest_even_cancels(n * pow2(g), d, p);
}

proof fn lemma_whole_part_up(s: u64, h: u32, up: nat)
    requires
        s < SIGNIFICAND_END,
        s >= MIN_NORMAL,
        h == UNIT_EXPONENT + up,
    ensures
        (s as nat * pow2(h as nat)) / one_in_units() == s as nat * pow2(up),
        up >= 12 ==> s as nat * pow2(up) > u64::MAX,
        up < 12 ==> s as nat * pow2(up) <= u64::MAX,
{
    let one = one_in_units();
    lemma_pow2_pos(UNIT_EXPONENT as nat);
    lemma_pow2_pos(up);
    lemma_pow2_adds(UNIT_EXPONENT as nat, up);
    assert(s as nat * pow2(h as nat) == one * (s as nat * pow2(up))) by (nonlinear_arith)
        requires
            pow2(h as nat) == one * pow2(up),
    ;
    lemma_div_multiples_vanish((s as nat * pow2(up)) as int, one as int);
    lemma2_to64();
    if up >= 12 {
        lemma_pow2_increases(12, up);
        assert(s as nat * pow2(up) >= MIN_NORMAL as nat * pow2(12)) by (nonlinear_arith)
            requires
                s >= MIN_NORMAL,
                pow2(up) >= pow2(12),
        ;
    } else {
        lemma_pow2_increases(up, 11);
        assert(s as nat * pow2(up) <= (SIGNIFICAND_END - 1) as nat * pow2(11)) by (nonlinear_arith)
            requires
                s <= SIGNIFICAND_END - 1,
                pow2(up) <= pow2(11),
        ;
    }
}

proof fn lemma_whole_part_down(s: u64, h: u32, down: nat)
    requires
        s < SIGNIFICAND_END,
        h + down == UNIT_EXPONENT,
    ensures
        (s as nat * pow2(h as nat)) / one_in_units() == s as nat / pow2(down),
        s as nat / pow2(down) <= s,
        down >= 53 ==> s as nat / pow2(down) == 0,
{
    lemma_pow2_constants();
    lemma_pow2_pos(h as nat);
    lemma_pow2_pos(down);
    lemma_pow2_adds(h as nat, down);
    lemma_mul_is_commutative(s as int, pow2(h as nat) as int);
    lemma_div_multiples_vanish_quotient(pow2(h as nat) as int, s as int, pow2(down) as int);
    lemma_div_nonincreasing(s as int, pow2(down) as int);
    if down >= 53 {
        lemma_pow2_increases(53, down);
        lemma_basic_div(s as int, pow2(down) as int);
    }
}

/// Of two normalized magnitudes, the one with the larger scale is the larger one.
proof fn lemma_magnitude_order(s1: u64, h1: u32, s2: u64, h2: u32)
    requires
        s1 < SIGNIFICAND_END,
        h1 < h2,
        s2 >= MIN_NORMAL,
    ensures
        s1 as nat * pow2(h1 as nat) < s2 as nat * pow2(h2 as nat),
{
    lemma_pow2_constants();
    let p = pow2(h1 as nat);
    lemma_pow2_pos(h1 as nat);
    lemma_pow2_unfold(h1 as nat + 1);
    lemma_pow2_increases(h1 as nat + 1, h2 as nat);
    assert(s1 as nat * p < s2 as nat * pow2(h2 as nat)) by (nonlinear_arith)
        requires
            s1 < 2 * s2,
            pow2(h2 as nat) >= 2 * p,
            p > 0,
    ;
}

fn magnitude_less_than(s1: u64, h1: u32, s2: u64, h2: u32) -> (less: bool)
    requires
        s1 < SIGNIFICAND_END,
        s2 < SIGNIFICAND_END,
        h1 > 0 ==> s1 >= MIN_NORMAL,
        h2 > 0 ==> s2 >= MIN_NORMAL,
    ensures
        less == (s1 as nat * pow2(h1 as nat) < s2 as nat * pow2(h2 as nat)),
{
    if h1 < h2 {
        proof {
            lemma_magnitude_order(s1, h1, s2, h2);
        }
        true
    } else if h2 < h1 {
        proof {
            lemma_magnitude_order(s2, h2, s1, h1);
        }
        false
    } else {
        proof {
            lemma_pow2_pos(h1 as nat);
            let p = pow2(h1 as nat);
            assert(s1 as nat * p < s2 as nat * p <==> s1 < s2) by (nonlinear_arith)
                requires
                    p > 0,
            ;
        }
        s1 < s2
    }
}

/// The sum of two finite numbers of which the second is not the larger in magnitude.
fn sum_of_finite(a: bool, s1: u64, h1: u32, b: bool, s2: u64, h2: u32) -> (sum: Double)
    requires
        s1 < SIGNIFICAND_END,
        s2 < SIGNIFICAND_END,
        h1 <= MAX_SCALE,
        h2 <= MAX_SCALE,
        h1 > 0 ==> s1 >= MIN_NORMAL,
        h2 > 0 ==> s2 >= MIN_NORMAL,
        s2 as nat * pow2(h2 as nat) <= s1 as nat * pow2(h1 as nat),
    ensures
        sum@ == (Value::Finite { negative: a, magnitude: s1 as nat * pow2(h1 as nat) }).plus(
            Value::Finite { negative: b, magnitude: s2 as nat * pow2(h2 as nat) },
        ),
        sum@ == (Value::Finite { negative: b, magnitude: s2 as nat * pow2(h2 as nat) }).plus(
            Value::Finite { negative: a, magnitude: s1 as nat * pow2(h1 as nat) },
        ),
{
    let ghost x = s1 as nat * pow2(h1 as nat);
    let ghost y = s2 as nat * pow2(h2 as nat);
    let ghost m: nat = if a == b {
        x + y
    } else {
        (x - y) as nat
    };
    proof {
        lemma_plus_of_finite(a, x, b, y);
        lemma_zero_magnitude(s1, h1);
        lemma_zero_magnitude(s2, h2);
        if h1 < h2 {
            lemma_magnitude_order(s1, h1, s2, h2);
        }
    }
    if (s1 == 0) || (a != b && s1 == s2 && h1 == h2) {
        return Double::zero(a && b);
    }
    let apart: u32 = h1 - h2;
    if apart <= 64 {
        proof {
            lemma_one_shifted_left(apart as u128);
            lemma_pow2_large_constants();
            lemma_pow2_increases(apart as nat, 64);
            lemma_pow2_adds(h2 as nat, apart as nat);
            assert(s1 as nat * pow2(apart as nat) <= (SIGNIFICAND_END - 1) as nat * pow2(64))
                by (nonlinear_arith)
                requires
                    s1 <= SIGNIFICAND_END - 1,
                    pow2(apart as nat) <= pow2(64),
            ;
            assert(x == (s1 as nat * pow2(apart as nat)) * pow2(h2 as nat)) by (nonlinear_arith)
                requires
                    x == s1 as nat * pow2(h1 as nat),
                    pow2(h1 as nat) == pow2(h2 as nat) * pow2(apart as nat),
            ;
            lemma_pow2_pos(h2 as nat);
            let p = pow2(h2 as nat);
            let z = s1 as nat * pow2(apart as nat);
            assert(s2 <= z) by (nonlinear_arith)
                requires
                    s2 as nat * p <= z * p,
                    p > 0,
            ;
            assert(z == s2 ==> x == y);
            assert(z * p + s2 as nat * p == (z + s2) * p) by (nonlinear_arith);
            assert(z * p - s2 as nat * p == (z - s2) * p) by (nonlinear_arith);
        }
        let high: u128 = (s1 as u128) * (1u128 << (apart as u128));
        let t: u128 = if a == b {
            high + s2 as u128
        } else {
            high - s2 as u128
        };
        proof {
            lemma_exact_sum(m, t as nat, h2 as nat);
            lemma_pow2_pos(h2 as nat);
            assert(m == 0 <==> t == 0) by (nonlinear_arith)
                requires
                    m == t as nat * pow2(h2 as nat),
                    pow2(h2 as nat) > 0,
            ;
        }
        if t == 0 {
            Double::zero(a && b)
        } else {
            round_scaled(a, t, h2 + BIAS)
        }
    } else {
        let high: u128 = (s1 as u128) * 0x1000;
        let t: u128 = if s2 == 0 {
            high
        } else if a == b {
            high + 1
        } else {
            high - 1
        };
        proof {
            lemma_distant_sum(a == b, s1, h1, s2, h2, t as nat);
            lemma_magnitude_order(s2, h2, s1, h1);
        }
        round_scaled(a, t, h1 + BIAS - 12)
    }
}

proof fn lemma_plus_of_finite(a: bool, x: nat, b: bool, y: nat)
    requires
        y <= x,
    ensures
        ({
            let m: nat = if a == b {
                x + y
            } else {
                (x - y) as nat
            };
            let sum = if m == 0 {
                Value::Finite { negative: a && b, magnitude: 0 }
            } else {
                Value::rounded(a, m, 1)
            };
            let first = Value::Finite { negative: a, magnitude: x };
            let second = Value::Finite { negative: b, magnitude: y };
            first.plus(second) == sum && second.plus(first) == sum
        }),
{
}

proof fn lemma_exact_sum(m: nat, t: nat, h: nat)
    requires
        m == t * pow2(h),
    ensures
        round_ratio(m, 1) == round_ratio(t * pow2(h + BIAS as nat), pow2(BIAS as nat)),
{
    lemma_pow2_pos(BIAS as nat);
    lemma_pow2_adds(h, BIAS as nat);
    crate::rounding::lemma_round_ratio_cancels(m, 1, pow2(BIAS as nat));
    lemma_mul_is_associative(t as int, pow2(h) as int, pow2(BIAS as nat) as int);
}

/// A number that is at least `2^65` times smaller only decides to which side a sum is inexact.
proof fn lemma_distant_sum(same_sign: bool, s1: u64, h1: u32, s2: u64, h2: u32, t: nat)
    requires
        MIN_NORMAL <= s1 < SIGNIFICAND_END,
        s2 < SIGNIFICAND_END,
        h1 >= h2 + 65,
        t == if s2 == 0 {
            s1 * 0x1000
        } else if same_sign {
            s1 * 0x1000 + 1
        } else {
            s1 * 0x1000 - 1
        },
    ensures
        ({
            let x = s1 as nat * pow2(h1 as nat);
            let y = s2 as nat * pow2(h2 as nat);
            let m = if same_sign {
                x + y
            } else {
                (x - y) as nat
            };
            round_ratio(m, 1) == round_ratio(
                t * pow2((h1 + BIAS - 12) as nat),
                pow2(BIAS as nat),
            )
        }),
{
    let x = s1 as nat * pow2(h1 as nat);
    let y = s2 as nat * pow2(h2 as nat);
    let b = pow2(BIAS as nat);
    let k = (h1 + BIAS - 12) as nat;
    let p = pow2(k);
    let rest = y * b;
    lemma_pow2_constants();
    lemma2_to64();
    lemma_pow2_pos(BIAS as nat);
    lemma_pow2_pos(k);
    lemma_pow2_pos((h2 + BIAS) as nat);
    lemma_zero_magnitude(s2, h2);
    lemma_pow2_adds(h1 as nat, BIAS as nat);
    lemma_pow2_adds(12, k);
    lemma_pow2_adds(h2 as nat, BIAS as nat);
    lemma_pow2_adds(53, (h2 + BIAS) as nat);
    lemma_pow2_increases(53 + (h2 + BIAS) as nat, k);
    assert(x * b == (s1 as nat * 0x1000) * p) by (nonlinear_arith)
        requires
            x == s1 as nat * pow2(h1 as nat),
            pow2(h1 as nat) * b == 0x1000 * p,
    ;
    assert(rest < SIGNIFICAND_END as nat * pow2((h2 + BIAS) as nat)) by (nonlinear_arith)
        requires
            rest == (s2 as nat * pow2(h2 as nat)) * b,
            pow2((h2 + BIAS) as nat) == pow2(h2 as nat) * b,
            s2 < SIGNIFICAND_END,
            pow2((h2 + BIAS) as nat) > 0,
    ;
    assert(rest < p);
    assert(rest == 0 <==> s2 == 0) by (nonlinear_arith)
        requires
            rest == y * b,
            y == 0 <==> s2 == 0,
            b > 0,
    ;
    let high = s1 as nat * 0x1000;
    lemma_mul_is_distributive_add_other_way(b as int, x as int, y as int);
    lemma_mul_is_distributive_sub_other_way(b as int, x as int, y as int);
    assert((high + 1) * p == high * p + p) by (nonlinear_arith);
    assert((high - 1) * p == high * p - p) by (nonlinear_arith);
    assert(x >= y) by (nonlinear_arith)
        requires
            x * b > y * b,
            b > 0,
    ;
    lemma_mul_basics(p as int);
    let (m, f) = if same_sign {
        (x + y, high)
    } else if s2 == 0 {
        (x, high)
    } else {
        ((x - y) as nat, (high - 1) as nat)
    };
    assert(same_sign ==> m * b == x * b + rest);
    assert(!same_sign ==> m * b == x * b - rest);
    lemma_round_ratio_of_odd(m, 1, k, BIAS as nat, f, t);
}

proof fn lemma_zero_magnitude(s: u64, h: u32)
    ensures
        s as nat * pow2(h as nat) == 0 <==> s == 0,
{
    lemma_pow2_pos(h as nat);
    assert(s as nat * pow2(h as nat) == 0 <==> s == 0) by (nonlinear_arith)
        requires
            pow2(h as nat) > 0,
    ;
}

proof fn lemma_product(s1: u64, h1: u32, s2: u64, h2: u32)
    ensures
        round_ratio(
            (s1 as nat * pow2(h1 as nat)) * (s2 as nat * pow2(h2 as nat)),
            one_in_units(),
        ) == round_ratio(
            (s1 as nat * s2 as nat) * pow2((h1 + h2 + (BIAS - UNIT_EXPONENT)) as nat),
            pow2(BIAS as nat),
        ),
{
    let x = s1 as nat * pow2(h1 as nat);
    let y = s2 as nat * pow2(h2 as nat);
    let c = (BIAS - UNIT_EXPONENT) as nat;
    lemma_pow2_pos(c);
    lemma_pow2_pos(UNIT_EXPONENT as nat);
    lemma_pow2_adds(UNIT_EXPONENT as nat, c);
    lemma_pow2_adds(h1 as nat, h2 as nat);
    lemma_pow2_adds((h1 + h2) as nat, c);
    crate::rounding::lemma_round_ratio_cancels(x * y, one_in_units(), pow2(c));
    assert((x * y) * pow2(c) == (s1 as nat * s2 as nat) * pow2((h1 + h2) as nat + c))
        by (nonlinear_arith)
        requires
            x == s1 as nat * pow2(h1 as nat),
            y == s2 as nat * pow2(h2 as nat),
            pow2((h1 + h2) as nat + c) == (pow2(h1 as nat) * pow2(h2 as nat)) * pow2(c),
    ;
}

proof fn lemma_quotient_size(high: u128, s2: u64)
    requires
        SHIFTED_MIN <= high < SHIFTED_END,
        0 < s2 < SIGNIFICAND_END,
    ensures
        2 * SIGNIFICAND_END <= high / (s2 as u128) <= high,
        high % (s2 as u128) != 0 ==> high / (s2 as u128) < high,
{
    let q = high as int / s2 as int;
    let r = high as int % s2 as int;
    lemma_fundamental_div_mod(high as int, s2 as int);
    assert(q <= high && (r != 0 ==> q < high)) by (nonlinear_arith)
        requires
            high == s2 * q + r,
            0 <= r,
            s2 > 0,
            high >= 0,
            q >= 0 || q < 0,
    ;
    if q < 2 * SIGNIFICAND_END {
        assert(s2 * (q + 1) <= SIGNIFICAND_END * (2 * SIGNIFICAND_END)) by (nonlinear_arith)
            requires
                s2 <= SIGNIFICAND_END,
                0 <= q + 1 <= 2 * SIGNIFICAND_END,
        ;
        assert(s2 * (q + 1) == s2 * q + s2) by (nonlinear_arith);
    }
}

proof fn lemma_quotient(
    s1: u64,
    h1: u32,
    s2: u64,
    h2: u32,
    high: u128,
    low: u32,
    floor: nat,
    t: nat,
)
    requires
        0 < s2 < SIGNIFICAND_END,
        SHIFTED_MIN <= high < SHIFTED_END,
        h2 <= MAX_SCALE,
        high as nat * pow2(low as nat) == s1 as nat * pow2(127),
        floor == high as nat / s2 as nat,
        crate::rounding::rounds_to_odd(floor, high as nat % s2 as nat == 0, t),
    ensures
        round_ratio((s1 as nat * pow2(h1 as nat)) * one_in_units(), s2 as nat * pow2(h2 as nat))
            == round_ratio(
            t * pow2((low + h1 + (UNIT_EXPONENT + BIAS - 127) - h2) as nat),
            pow2(BIAS as nat),
        ),
{
    let c = (UNIT_EXPONENT + BIAS - 127) as nat;
    let w = pow2((low + h1) as nat + c);
    let k = (low + h1 + c - h2) as nat;
    let d = s2 as nat * pow2(h2 as nat);
    let n = (s1 as nat * pow2(h1 as nat)) * one_in_units();
    let b = pow2(BIAS as nat);
    lemma_pow2_pos(h2 as nat);
    lemma_mul_strictly_positive(s2 as int, pow2(h2 as nat) as int);
    lemma_pow2_adds(h2 as nat, k);
    assert(d * pow2(k) == s2 as nat * w) by (nonlinear_arith)
        requires
            d == s2 as nat * pow2(h2 as nat),
            w == pow2(h2 as nat) * pow2(k),
    ;
    lemma_pow2_adds(UNIT_EXPONENT as nat, BIAS as nat);
    lemma_pow2_adds(127, c);
    lemma_pow2_adds((low + h1) as nat, c);
    lemma_pow2_adds(low as nat, h1 as nat);
    assert(n * b == high as nat * w) by (nonlinear_arith)
        requires
            n == (s1 as nat * pow2(h1 as nat)) * one_in_units(),
            one_in_units() * b == pow2(127) * pow2(c),
            w == (pow2(low as nat) * pow2(h1 as nat)) * pow2(c),
            high as nat * pow2(low as nat) == s1 as nat * pow2(127),
    ;
    lemma_pow2_pos((low + h1) as nat + c);
    lemma_fundamental_div_mod(high as int, s2 as int);
    lemma_quotient_size(high, s2);
    let r = high as nat % s2 as nat;
    assert(floor * (s2 as nat * w) <= high as nat * w < (floor + 1) * (s2 as nat * w))
        by (nonlinear_arith)
        requires
            high == s2 * floor + r,
            0 <= r < s2,
            w > 0,
    ;
    assert(high as nat * w == floor * (s2 as nat * w) <==> r == 0) by (nonlinear_arith)
        requires
            high == s2 * floor + r,
            w > 0,
    ;
    lemma_round_ratio_of_odd(n, d, k, BIAS as nat, floor, t);
}

proof fn lemma_of_int(n: u64)
    ensures
        round_ratio(n as nat * one_in_units(), 1) == round_ratio(
            n as nat * pow2((UNIT_EXPONENT + BIAS) as nat),
            pow2(BIAS as nat),
        ),
{
    lemma_pow2_pos(BIAS as nat);
    lemma_pow2_adds(UNIT_EXPONENT as nat, BIAS as nat);
    crate::rounding::lemma_round_ratio_cancels(n as nat * one_in_units(), 1, pow2(BIAS as nat));
    lemma_mul_is_associative(n as int, one_in_units() as int, pow2(BIAS as nat) as int);
}

/// Every bit pattern stands for a value that binary64 has.
pub proof fn law_decoded_is_canonical(bits: u64)
    ensures
        decode(bits).canonical(),
{
    lemma_pow2_constants();
    let rest = bits % 0x8000_0000_0000_0000;
    let exponent = rest / MIN_NORMAL;
    let fraction = rest % MIN_NORMAL;
    lemma_pow2_increases(53, END_EXPONENT as nat);
    if exponent == 0 {
        crate::rounding::lemma_scaled_is_representable(fraction as nat, 0);
    } else if exponent < 2047 {
        let h = (exponent - 1) as nat;
        let s = (MIN_NORMAL + fraction) as nat;
        crate::rounding::lemma_scaled_is_representable(s, h);
        lemma_pow2_adds(53, h);
        lemma_pow2_pos(h);
        lemma_pow2_increases(53 + h, END_EXPONENT as nat);
        assert(s * pow2(h) < pow2(53) * pow2(h)) by (nonlinear_arith)
            requires
                s < pow2(53),
                pow2(h) > 0,
        ;
    }
}

/// Rounding gives a value that binary64 has.
pub proof fn law_rounded_is_canonical(negative: bool, n: nat, d: nat)
    requires
        d > 0,
    ensures
        Value::rounded(negative, n, d).canonical(),
{
    crate::rounding::law_rounding_is_representable(n, d);
}

/// The whole part grows with the magnitude.
pub proof fn law_to_u64_is_monotone(x: nat, y: nat)
    requires
        x <= y,
    ensures
        (Value::Finite { negative: false, magnitude: x }).to_u64() <= (Value::Finite {
            negative: false,
            magnitude: y,
        }).to_u64(),
{
    lemma_pow2_pos(UNIT_EXPONENT as nat);
    lemma_div_is_ordered(x as int, y as int, one_in_units() as int);
}

/// A `u64` becomes a finite number that is zero only for zero.
pub proof fn law_of_u64_is_finite(n: u64)
    ensures
        Value::of_int(n as nat).canonical(),
        Value::of_int(n as nat) matches Value::Finite { negative, magnitude } && !negative && (n
            == 0 <==> magnitude == 0) && (n > 0 ==> magnitude >= one_in_units()) && magnitude <= pow2(
            64,
        ) * one_in_units(),
{
    let one = one_in_units();
    let m = n as nat * one;
    lemma2_to64();
    lemma_pow2_pos(UNIT_EXPONENT as nat);
    law_rounded_is_canonical(false, m, 1);
    crate::rounding::lemma_scaled_is_representable(1, UNIT_EXPONENT as nat);
    crate::rounding::lemma_scaled_is_representable(1, 64 + UNIT_EXPONENT as nat);
    crate::rounding::law_rounding_keeps_bounds(m, 1, one);
    crate::rounding::law_rounding_keeps_bounds(m, 1, pow2(64 + UNIT_EXPONENT as nat));
    lemma_pow2_adds(64, UNIT_EXPONENT as nat);
    lemma_pow2_strictly_increases(64 + UNIT_EXPONENT as nat, END_EXPONENT as nat);
    assert(m <= pow2(64) * one && (n > 0 ==> m >= one)) by (nonlinear_arith)
        requires
            m == n as nat * one,
            n as nat <= pow2(64),
            one > 0,
    ;
    if n == 0 {
        crate::rounding::lemma_round_ratio_of_zero(1);
    }
}

/// Whole numbers up to `2^53` are exact, so they survive the way to binary64 and back.
pub proof fn law_small_integers_are_exact(n: nat)
    requires
        n <= SIGNIFICAND_END,
    ensures
        Value::of_int(n) == (Value::Finite { negative: false, magnitude: n * one_in_units() }),
        Value::of_int(n).to_u64() == n,
{
    let one = one_in_units();
    lemma_pow2_constants();
    lemma_pow2_pos(UNIT_EXPONENT as nat);
    crate::rounding::lemma_scaled_is_representable(n, UNIT_EXPONENT as nat);
    crate::rounding::law_rounding_is_exact(n * one, 1);
    lemma_pow2_adds(53, UNIT_EXPONENT as nat);
    lemma_pow2_strictly_increases(53 + UNIT_EXPONENT as nat, END_EXPONENT as nat);
    assert(n * one <= pow2(53) * one) by (nonlinear_arith)
        requires
            n <= pow2(53),
    ;
    lemma_mul_is_commutative(n as int, one as int);
    lemma_div_multiples_vanish(n as int, one as int);
}

/// A number other than zero, divided by itself, is one.
pub proof fn law_divided_by_itself(negative: bool, magnitude: nat)
    requires
        magnitude > 0,
    ensures
        (Value::Finite { negative, magnitude }).over(Value::Finite { negative, magnitude })
            == Value::of_int(1),
{
    let one = one_in_units();
    crate::rounding::lemma_round_ratio_cancels(one, 1, magnitude);
    lemma_mul_is_commutative(one as int, magnitude as int);
}

/// Multiplying by one changes nothing.
pub proof fn law_times_one(value: Value)
    requires
        value.canonical(),
    ensures
        value.times(Value::of_int(1)) == value,
{
    law_small_integers_are_exact(1);
    lemma_pow2_pos(UNIT_EXPONENT as nat);
    if let Value::Finite { magnitude, .. } = value {
        crate::rounding::law_rounding_is_exact(magnitude, one_in_units());
    }
}

/// Adding a number other than negative zero to zero gives the number.
pub proof fn law_plus_zero(value: Value)
    requires
        value.canonical(),
        value != (Value::Finite { negative: true, magnitude: 0 }),
    ensures
        (Value::Finite { negative: false, magnitude: 0 }).plus(value) == value,
{
    if let Value::Finite { magnitude, .. } = value {
        crate::rounding::law_rounding_is_exact(magnitude, 1);
    }
}

/// Rounding keeps the order of two ratios.
pub proof fn law_rounded_is_monotone(n1: nat, d1: nat, n2: nat, d2: nat)
    requires
        d1 > 0,
        d2 > 0,
        n1 * d2 <= n2 * d1,
    ensures
        Value::rounded(false, n1, d1).at_most(Value::rounded(false, n2, d2)),
{
    crate::rounding::law_rounding_is_monotone(n1, d1, n2, d2);
}

/// Multiplying by a finite number from zero on keeps the order of such numbers.
pub proof fn law_times_is_monotone(a: Value, b: Value, factor: Value)
    requires
        a is Finite,
        b is Finite,
        factor is Finite,
        factor.nonnegative(),
        a.at_most(b),
    ensures
        a.times(factor).at_most(b.times(factor)),
        factor.times(a).at_most(factor.times(b)),
{
    let x = a->Finite_magnitude;
    let y = b->Finite_magnitude;
    let z = factor->Finite_magnitude;
    let one = one_in_units();
    lemma_pow2_pos(UNIT_EXPONENT as nat);
    assert((x * z) * one <= (y * z) * one && x * z == z * x && y * z == z * y) by (nonlinear_arith)
        requires
            x <= y,
    ;
    law_rounded_is_monotone(x * z, one, y * z, one);
    crate::rounding::lemma_round_ratio_of_zero(one);
    lemma_pow2_pos(END_EXPONENT as nat);
    assert((x == 0 || z == 0 ==> x * z == 0) && (y == 0 || z == 0 ==> y * z == 0))
        by (nonlinear_arith);
}

/// Adding a finite number from zero on keeps the order of numbers from zero on.
pub proof fn law_plus_is_monotone(a: Value, b: Value, summand: Value)
    requires
        summand is Finite,
        summand.nonnegative(),
        a.at_most(b),
    ensures
        a.plus(summand).at_most(b.plus(summand)),
{
    if a is Finite && b is Finite {
        let x = a->Finite_magnitude;
        let y = b->Finite_magnitude;
        let z = summand->Finite_magnitude;
        law_rounded_is_monotone(x + z, 1, y + z, 1);
    }
}

/// The whole part keeps the order of numbers from zero on.
pub proof fn law_whole_part_is_monotone(a: Value, b: Value)
    requires
        a.at_most(b),
    ensures
        a.to_u64() <= b.to_u64(),
{
    if a is Finite && b is Finite {
        law_to_u64_is_monotone(a->Finite_magnitude, b->Finite_magnitude);
        lemma_pow2_pos(UNIT_EXPONENT as nat);
        lemma_basic_div(0, one_in_units() as int);
    }
}

/// The whole part of a finite number from zero on is below it by less than one, or is the largest
/// there is; that of one below zero is zero.
pub proof fn law_whole_part_is_the_floor(negative: bool, magnitude: nat)
    ensures
        ({
            let whole = (Value::Finite { negative, magnitude }).to_u64();
            let one = one_in_units();
            &&& negative ==> whole == 0
            &&& !negative ==> whole * one <= magnitude
            &&& !negative ==> magnitude < (whole + 1) * one || whole == u64::MAX
        }),
{
    let one = one_in_units();
    lemma_pow2_pos(UNIT_EXPONENT as nat);
    lemma_fundamental_div_mod(magnitude as int, one as int);
    let q = magnitude as int / one as int;
    assert((q + 1) * one == one * q + one && q * one == one * q) by (nonlinear_arith);
    if q > u64::MAX {
        lemma_mul_inequality(u64::MAX as int, q, one as int);
    }
}

/// Whether a value is what a number with the given sign and the exact magnitude `n / d` rounds to:
/// no representable number is closer. What is closest to a number too large for binary64 is an
/// infinity.
pub open spec fn is_closest(value: Value, negative: bool, n: nat, d: nat) -> bool {
    match value {
        Value::Nan => false,
        Value::Infinite { negative: sign } => {
            &&& sign == negative
            &&& forall|m: nat| #[trigger]
                representable(m) && m < pow2(END_EXPONENT as nat) ==> crate::rounding::error(
                    pow2(END_EXPONENT as nat),
                    n,
                    d,
                ) <= crate::rounding::error(m, n, d)
        },
        Value::Finite { negative: sign, magnitude } => {
            &&& sign == negative
            &&& representable(magnitude)
            &&& magnitude < pow2(END_EXPONENT as nat)
            &&& forall|m: nat| #[trigger]
                representable(m) ==> crate::rounding::error(magnitude, n, d)
                    <= crate::rounding::error(m, n, d)
        },
    }
}

/// Rounding gives the closest number there is.
pub proof fn law_rounded_is_closest(negative: bool, n: nat, d: nat)
    requires
        d > 0,
    ensures
        is_closest(Value::rounded(negative, n, d), negative, n, d),
{
    let r = round_ratio(n, d);
    let end = pow2(END_EXPONENT as nat);
    crate::rounding::law_rounding_is_representable(n, d);
    assert forall|m: nat| #[trigger] representable(m) implies crate::rounding::error(r, n, d)
        <= crate::rounding::error(m, n, d) by {
        crate::rounding::law_rounding_is_nearest(n, d, m);
    }
    if r >= end {
        assert forall|m: nat| #[trigger] representable(m) && m < end implies crate::rounding::error(
            end,
            n,
            d,
        ) <= crate::rounding::error(m, n, d) by {
            crate::rounding::law_rounding_is_nearest(n, d, m);
            lemma_mul_inequality(end as int, r as int, d as int);
            lemma_mul_inequality(m as int, end as int, d as int);
        }
    }
}

/// The sum of two finite numbers is the number closest to the exact sum; a sum of zero is
/// negative only where both numbers are.
pub proof fn law_sum_is_closest(a: bool, x: nat, b: bool, y: nat)
    ensures
        ({
            let sum = (Value::Finite { negative: a, magnitude: x }).plus(
                Value::Finite { negative: b, magnitude: y },
            );
            let exact = if a == b {
                (x + y) as int
            } else if a {
                y - x
            } else {
                x - y
            };
            let negative = if a == b {
                a
            } else {
                exact < 0
            };
            &&& exact == 0 ==> sum == (Value::Finite { negative: a && b, magnitude: 0 })
            &&& exact != 0 ==> is_closest(sum, negative, vstd::math::abs(exact), 1)
        }),
{
    let exact = if a == b {
        (x + y) as int
    } else if a {
        y - x
    } else {
        x - y
    };
    let negative = if a == b {
        a
    } else {
        exact < 0
    };
    law_rounded_is_closest(negative, vstd::math::abs(exact), 1);
}

/// The product of two finite numbers is the number closest to the exact product, and negative
/// where one of them is.
pub proof fn law_product_is_closest(a: bool, x: nat, b: bool, y: nat)
    ensures
        is_closest(
            (Value::Finite { negative: a, magnitude: x }).times(
                Value::Finite { negative: b, magnitude: y },
            ),
            a != b,
            x * y,
            one_in_units(),
        ),
{
    lemma_pow2_pos(UNIT_EXPONENT as nat);
    law_rounded_is_closest(a != b, x * y, one_in_units());
}

/// The quotient of two finite numbers is the number closest to the exact quotient, and negative
/// where one of them is; one that is not zero gives an infinity when divided by zero, and zero
/// gives no number.
pub proof fn law_quotient_is_closest(a: bool, x: nat, b: bool, y: nat)
    ensures
        ({
            let quotient = (Value::Finite { negative: a, magnitude: x }).over(
                Value::Finite { negative: b, magnitude: y },
            );
            &&& y > 0 ==> is_closest(quotient, a != b, x * one_in_units(), y)
            &&& y == 0 && x > 0 ==> quotient == (Value::Infinite { negative: a != b })
            &&& y == 0 && x == 0 ==> quotient == Value::Nan
        }),
{
    if y > 0 {
        law_rounded_is_closest(a != b, x * one_in_units(), y);
    }
}

/// The next bit pattern is the next number: the smallest distance further, which doubles with the
/// exponent. The pattern of zero bits is zero, and the sign bit changes the sign alone.
pub proof fn law_next_pattern_is_the_next_number(bits: u64)
    requires
        bits < 0x7fef_ffff_ffff_ffff,
    ensures
        decode(0) == (Value::Finite { negative: false, magnitude: 0 }),
        decode(bits) matches Value::Finite { negative, magnitude } && {
            let exponent = bits / MIN_NORMAL;
            let distance = pow2((if exponent == 0 {
                0
            } else {
                exponent - 1
            }) as nat);
            &&& !negative
            &&& decode((bits + 1) as u64) == (Value::Finite {
                negative: false,
                magnitude: magnitude + distance,
            })
            &&& decode((bits + 0x8000_0000_0000_0000) as u64) == (Value::Finite {
                negative: true,
                magnitude,
            })
        },
{
    lemma_pow2_constants();
    let e = bits / MIN_NORMAL;
    let f = bits % MIN_NORMAL;
    let next = (bits + 1) as u64;
    assert(e <= 2046);
    if f == MIN_NORMAL - 1 {
        assert(next / MIN_NORMAL == e + 1 && next % MIN_NORMAL == 0);
        if e > 0 {
            let p = pow2((e - 1) as nat);
            lemma_pow2_unfold(e as nat);
            assert((MIN_NORMAL + f) as nat * p + p == MIN_NORMAL as nat * (2 * p)) by (nonlinear_arith)
                requires
                    f == MIN_NORMAL - 1,
            ;
        }
    } else {
        assert(next / MIN_NORMAL == e && next % MIN_NORMAL == f + 1);
        if e > 0 {
            let p = pow2((e - 1) as nat);
            assert((MIN_NORMAL + f) as nat * p + p == (MIN_NORMAL + (f + 1)) as nat * p)
                by (nonlinear_arith);
        }
    }
}

/// The order of finite numbers is that of their distances from zero, with their signs.
pub proof fn law_order_of_finite_numbers(a: bool, x: nat, b: bool, y: nat)
    ensures
        ({
            let first = Value::Finite { negative: a, magnitude: x };
            let second = Value::Finite { negative: b, magnitude: y };
            &&& !a && !b ==> (first.less_than(second) <==> x < y)
            &&& a && b ==> (first.less_than(second) <==> y < x)
            &&& a && !b ==> (first.less_than(second) <==> x > 0 || y > 0)
            &&& !a && b ==> !first.less_than(second)
            &&& !(first.less_than(second) && second.less_than(first))
        }),
{
}

/// A number that is held between two bounds is not outside them, and is left as it is where it
/// was inside.
pub proof fn law_clamped_is_inside(value: Value, low: Value, high: Value)
    requires
        low is Finite,
        high is Finite,
        !high.less_than(low),
    ensures
        value == Value::Nan ==> value.clamped(low, high) == value,
        !value.clamped(low, high).less_than(low),
        !high.less_than(value.clamped(low, high)),
        !value.less_than(low) && !high.less_than(value) ==> value.clamped(low, high) == value,
{
}

/// What is not a number stays so. An infinity stays one but for the opposite infinity added to
/// it, zero multiplied with it and an infinity dividing it, which give no number; divided by an
/// infinity, a finite number is zero.
pub proof fn law_infinities(a: bool, b: bool, x: nat, other: Value)
    ensures
        ({
            let infinite = Value::Infinite { negative: a };
            let second = Value::Infinite { negative: b };
            let finite = Value::Finite { negative: b, magnitude: x };
            &&& Value::Nan.plus(other) == Value::Nan && other.plus(Value::Nan) == Value::Nan
            &&& Value::Nan.times(other) == Value::Nan && other.times(Value::Nan) == Value::Nan
            &&& Value::Nan.over(other) == Value::Nan && other.over(Value::Nan) == Value::Nan
            &&& !Value::Nan.less_than(other) && !other.less_than(Value::Nan)
            &&& infinite.plus(finite) == infinite && finite.plus(infinite) == infinite
            &&& a == b ==> infinite.plus(second) == infinite
            &&& a != b ==> infinite.plus(second) == Value::Nan
            &&& infinite.times(second) == (Value::Infinite { negative: a != b })
            &&& x > 0 ==> infinite.times(finite) == (Value::Infinite { negative: a != b })
            &&& x > 0 ==> finite.times(infinite) == (Value::Infinite { negative: a != b })
            &&& x == 0 ==> infinite.times(finite) == Value::Nan
            &&& x == 0 ==> finite.times(infinite) == Value::Nan
            &&& infinite.over(second) == Value::Nan
            &&& infinite.over(finite) == (Value::Infinite { negative: a != b })
            &&& finite.over(infinite) == (Value::Finite { negative: a != b, magnitude: 0 })
            &&& infinite.less_than(finite) == a
            &&& finite.less_than(infinite) == !a
            &&& infinite.less_than(second) == (a && !b)
            &&& infinite.to_u64() == if a {
                0
            } else {
                u64::MAX
            }
            &&& Value::Nan.to_u64() == 0
        }),
{
}

} // verus!
