//! The software arithmetic against the hardware's.
use memory_ordering::binary64::Double;

fn double(x: f64) -> Double {
    Double::from_bits(x.to_bits())
}

fn assert_same(ours: Double, theirs: f64, what: &str, a: f64, b: f64) {
    let ours = f64::from_bits(ours.bits);
    if theirs.is_nan() {
        assert!(ours.is_nan(), "{what} of {a:e} and {b:e}: {ours:e}, not a NaN");
    } else {
        assert_eq!(ours.to_bits(), theirs.to_bits(), "{what} of {a:e} and {b:e}: {ours:e}, not {theirs:e}");
    }
}

fn assert_agrees(a: f64, b: f64) {
    let (x, y) = (double(a), double(b));
    assert_same(x.plus(y), a + b, "sum", a, b);
    assert_same(x.times(y), a * b, "product", a, b);
    assert_same(x.over(y), a / b, "quotient", a, b);
    assert_eq!(x.less_than(y), a < b, "{a:e} < {b:e}");
    assert_eq!(x.to_u64(), a as u64, "whole part of {a:e}");
    assert_same(x.clamped(double(0.01), double(1.0)), a.clamp(0.01, 1.0), "clamp", a, b);
}

/// A sequence of bit patterns without any particular structure.
struct Patterns {
    state: u64,
}

impl Patterns {
    fn next(&mut self) -> u64 {
        self.state ^= self.state << 13;
        self.state ^= self.state >> 7;
        self.state ^= self.state << 17;
        self.state
    }
}

fn special_numbers() -> Vec<f64> {
    let mut numbers = vec![
        0.0,
        1.0,
        0.5,
        2.0,
        3.0,
        0.1,
        0.01,
        300.0,
        1.0 / 300.0,
        1.0 / 78.0,
        9007199254740991.0,
        9007199254740992.0,
        9007199254740994.0,
        18446744073709549568.0,
        18446744073709551616.0,
        f64::MAX,
        f64::MIN_POSITIVE,
        f64::EPSILON,
        f64::INFINITY,
        f64::NAN,
        f64::from_bits(1),
        f64::from_bits(2),
        f64::from_bits(0x000f_ffff_ffff_ffff),
        f64::from_bits(0x0010_0000_0000_0001),
        f64::from_bits(0x3fef_ffff_ffff_ffff),
        f64::from_bits(0x3ff0_0000_0000_0001),
        f64::from_bits(0x7fe0_0000_0000_0000),
    ];
    for i in 0..numbers.len() {
        numbers.push(-numbers[i]);
    }
    numbers
}

#[test]
fn special_numbers_agree_with_the_hardware() {
    let numbers = special_numbers();
    for a in &numbers {
        for b in &numbers {
            assert_agrees(*a, *b);
        }
    }
}

#[test]
fn arbitrary_bits_agree_with_the_hardware() {
    let mut patterns = Patterns { state: 0x9e37_79b9_7f4a_7c15 };
    for _ in 0..200_000 {
        let a = f64::from_bits(patterns.next());
        let b = f64::from_bits(patterns.next());
        assert_agrees(a, b);
    }
}

#[test]
fn close_exponents_agree_with_the_hardware() {
    let mut patterns = Patterns { state: 0x2545_f491_4f6c_dd1d };
    for _ in 0..200_000 {
        let sign = patterns.next() & 0x8000_0000_0000_0000;
        let exponent = 1023 - 60 + patterns.next() % 120;
        let a = f64::from_bits(sign | (exponent << 52) | (patterns.next() >> 12));
        let exponent = 1023 - 60 + patterns.next() % 120;
        let b = f64::from_bits((exponent << 52) | (patterns.next() >> 12));
        assert_agrees(a, b);
    }
}

#[test]
fn subnormal_results_agree_with_the_hardware() {
    let mut patterns = Patterns { state: 0x0123_4567_89ab_cdef };
    for _ in 0..100_000 {
        let a = f64::from_bits((patterns.next() % 60 << 52) | (patterns.next() >> 12));
        let b = f64::from_bits(((1023 - 60 + patterns.next() % 120) << 52) | (patterns.next() >> 12));
        assert_agrees(a, b);
        assert_agrees(b, a);
        assert_agrees(-a, a);
    }
}

#[test]
fn integers_agree_with_the_hardware() {
    let mut patterns = Patterns { state: 0xdead_beef_cafe_f00d };
    for n in [0, 1, 2, 3, u64::MAX, u64::MAX - 1024, u64::MAX - 1023, 1 << 53, (1 << 53) + 1, (1 << 53) + 3] {
        assert_eq!(Double::from_u64(n).bits, (n as f64).to_bits());
    }
    for _ in 0..200_000 {
        let n = patterns.next() >> (patterns.next() % 64);
        assert_eq!(Double::from_u64(n).bits, (n as f64).to_bits());
        assert_eq!(Double::from_u64(n).to_u64(), n as f64 as u64);
    }
}

#[test]
fn constants_have_their_bits() {
    assert_eq!(Double::one().bits, 1.0f64.to_bits());
    assert_eq!(Double::half().bits, 0.5f64.to_bits());
    assert_eq!(Double::hundredth().bits, 0.01f64.to_bits());
}

#[test]
fn ties_go_to_the_even_neighbour() {
    assert_eq!(Double::from_u64((1 << 53) + 1).to_u64(), 1 << 53);
    assert_eq!(Double::from_u64((1 << 53) + 3).to_u64(), (1 << 53) + 4);
}

#[test]
fn whole_parts_saturate() {
    assert_eq!(double(-3.5).to_u64(), 0);
    assert_eq!(double(2.9999).to_u64(), 2);
    assert_eq!(double(1e30).to_u64(), u64::MAX);
    assert_eq!(double(f64::INFINITY).to_u64(), u64::MAX);
    assert_eq!(double(f64::NEG_INFINITY).to_u64(), 0);
    assert_eq!(double(f64::NAN).to_u64(), 0);
}

#[test]
fn neutral_numbers_change_nothing() {
    for x in special_numbers() {
        if !x.is_nan() {
            assert_eq!(double(x).times(Double::one()).bits, x.to_bits());
            assert_eq!(double(0.0).plus(double(x)).bits, (0.0 + x).to_bits());
        }
        if x.is_finite() && x != 0.0 {
            assert_eq!(double(x).over(double(x)).bits, 1.0f64.to_bits());
        }
    }
}
