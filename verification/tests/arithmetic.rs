use regressor::Binary64;

fn b(x: f64) -> Binary64 {
    Binary64::from_bits(x.to_bits())
}

/// The bits that the hardware result stands for, with every NaN brought to
/// the one pattern that the library produces.
fn expected_bits(x: f64) -> u64 {
    if x.is_nan() {
        0x7ff8_0000_0000_0000
    } else {
        x.to_bits()
    }
}

fn samples() -> Vec<f64> {
    vec![
        0.0,
        -0.0,
        1.0,
        -1.0,
        0.5,
        1.5,
        2.0,
        3.0,
        3.4,
        -2.1,
        5.0,
        10.0,
        -6.1,
        9.8,
        0.1,
        0.2,
        0.3,
        1.0 / 3.0,
        1e-5,
        1e15,
        1e16,
        9007199254740992.0,
        9007199254740993.0,
        9007199254740994.0,
        4503599627370496.0,
        4503599627370497.0,
        1e100,
        1e200,
        1e300,
        1e308,
        -1e308,
        1.7976931348623157e308,
        -1.7976931348623157e308,
        8.98846567431158e307,
        2.2250738585072014e-308,
        2.225073858507201e-308,
        1.1125369292536007e-308,
        5e-324,
        -5e-324,
        1e-323,
        1.5e-323,
        1e-320,
        1e-310,
        1e-300,
        1e-200,
        1e-162,
        1.4916681462400413e-154,
        1.3407807929942597e154,
        f64::INFINITY,
        f64::NEG_INFINITY,
        f64::NAN,
        f64::EPSILON,
        1.0 + f64::EPSILON,
        1.0 - f64::EPSILON / 2.0,
        0.9999999999999999,
        123456789.123456789,
        -987654321.987654321,
    ]
}

struct Patterns(u64);

impl Patterns {
    fn next(&mut self) -> u64 {
        self.0 ^= self.0 << 13;
        self.0 ^= self.0 >> 7;
        self.0 ^= self.0 << 17;
        self.0
    }

    /// A pattern whose exponent lies within `spread` of that of one.
    fn near_one(&mut self, spread: u64) -> u64 {
        let raw = self.next();
        let exponent = 1023 - spread + (self.next() % (2 * spread + 1));
        (raw & 0x800f_ffff_ffff_ffff) | (exponent << 52)
    }
}

#[test]
fn add_agrees_with_hardware_on_samples() {
    for x in samples() {
        for y in samples() {
            assert_eq!(b(x).add(b(y)).to_bits(), expected_bits(x + y), "{:e} + {:e}", x, y);
        }
    }
}

#[test]
fn sub_agrees_with_hardware_on_samples() {
    for x in samples() {
        for y in samples() {
            assert_eq!(b(x).sub(b(y)).to_bits(), expected_bits(x - y), "{:e} - {:e}", x, y);
        }
    }
}

#[test]
fn mul_agrees_with_hardware_on_samples() {
    for x in samples() {
        for y in samples() {
            assert_eq!(b(x).mul(b(y)).to_bits(), expected_bits(x * y), "{:e} * {:e}", x, y);
        }
    }
}

#[test]
fn div_agrees_with_hardware_on_samples() {
    for x in samples() {
        for y in samples() {
            assert_eq!(b(x).div(b(y)).to_bits(), expected_bits(x / y), "{:e} / {:e}", x, y);
        }
    }
}

#[test]
fn lt_agrees_with_hardware_on_samples() {
    for x in samples() {
        for y in samples() {
            assert_eq!(b(x).lt(b(y)), x < y, "{:e} < {:e}", x, y);
            assert_eq!(b(x).gt(b(y)), x > y, "{:e} > {:e}", x, y);
        }
    }
}

#[test]
fn arithmetic_agrees_with_hardware_on_arbitrary_patterns() {
    let mut patterns = Patterns(0x2545_f491_4f6c_dd1d);
    for _ in 0..20000 {
        let x = f64::from_bits(patterns.next());
        let y = f64::from_bits(patterns.next());
        assert_eq!(b(x).add(b(y)).to_bits(), expected_bits(x + y), "{:e} + {:e}", x, y);
        assert_eq!(b(x).sub(b(y)).to_bits(), expected_bits(x - y), "{:e} - {:e}", x, y);
        assert_eq!(b(x).mul(b(y)).to_bits(), expected_bits(x * y), "{:e} * {:e}", x, y);
        assert_eq!(b(x).div(b(y)).to_bits(), expected_bits(x / y), "{:e} / {:e}", x, y);
        assert_eq!(b(x).lt(b(y)), x < y, "{:e} < {:e}", x, y);
    }
}

#[test]
fn arithmetic_agrees_with_hardware_on_neighbouring_exponents() {
    let mut patterns = Patterns(0x9e37_79b9_7f4a_7c15);
    for round in 0..20000u64 {
        let spread = 1 + round % 70;
        let x = f64::from_bits(patterns.near_one(spread));
        let y = f64::from_bits(patterns.near_one(spread));
        assert_eq!(b(x).add(b(y)).to_bits(), expected_bits(x + y), "{:e} + {:e}", x, y);
        assert_eq!(b(x).sub(b(y)).to_bits(), expected_bits(x - y), "{:e} - {:e}", x, y);
        assert_eq!(b(x).mul(b(y)).to_bits(), expected_bits(x * y), "{:e} * {:e}", x, y);
        assert_eq!(b(x).div(b(y)).to_bits(), expected_bits(x / y), "{:e} / {:e}", x, y);
    }
}

#[test]
fn arithmetic_agrees_with_hardware_near_the_subnormal_range() {
    let mut patterns = Patterns(0x0123_4567_89ab_cdef);
    for _ in 0..20000 {
        let small = f64::from_bits(patterns.next() & 0x803f_ffff_ffff_ffff);
        let other = f64::from_bits(patterns.next() & 0x803f_ffff_ffff_ffff);
        let unit = f64::from_bits(patterns.near_one(60));
        assert_eq!(
            b(small).add(b(other)).to_bits(),
            expected_bits(small + other),
            "{:e} + {:e}",
            small,
            other
        );
        assert_eq!(
            b(small).sub(b(other)).to_bits(),
            expected_bits(small - other),
            "{:e} - {:e}",
            small,
            other
        );
        assert_eq!(
            b(small).mul(b(unit)).to_bits(),
            expected_bits(small * unit),
            "{:e} * {:e}",
            small,
            unit
        );
        assert_eq!(
            b(small).div(b(unit)).to_bits(),
            expected_bits(small / unit),
            "{:e} / {:e}",
            small,
            unit
        );
        assert_eq!(
            b(small).div(b(other)).to_bits(),
            expected_bits(small / other),
            "{:e} / {:e}",
            small,
            other
        );
        assert_eq!(
            b(unit).div(b(small)).to_bits(),
            expected_bits(unit / small),
            "{:e} / {:e}",
            unit,
            small
        );
    }
}

#[test]
fn from_usize_agrees_with_hardware() {
    let counts: Vec<usize> = vec![
        0,
        1,
        2,
        3,
        5,
        1000,
        9007199254740991,
        9007199254740992,
        9007199254740993,
        9007199254740994,
        9007199254740995,
        18014398509481983,
        usize::MAX - 1,
        usize::MAX,
    ];
    for n in counts {
        assert_eq!(Binary64::from_usize(n).to_bits(), (n as f64).to_bits(), "{}", n);
    }
    let mut patterns = Patterns(0x1357_9bdf_0246_8ace);
    for _ in 0..20000 {
        let n = patterns.next() as usize;
        assert_eq!(Binary64::from_usize(n).to_bits(), (n as f64).to_bits(), "{}", n);
    }
}

#[test]
fn neg_flips_the_sign_bit_only() {
    for x in samples() {
        assert_eq!(b(x).neg().to_bits(), (-x).to_bits());
    }
}

#[test]
fn classification_agrees_with_hardware() {
    for x in samples() {
        assert_eq!(b(x).is_nan(), x.is_nan());
        assert_eq!(b(x).is_infinite(), x.is_infinite());
        assert_eq!(b(x).is_finite(), x.is_finite());
        assert_eq!(b(x).is_zero(), x == 0.0);
        assert_eq!(b(x).is_sign_negative(), x.is_sign_negative());
    }
    assert_eq!(Binary64::zero().to_bits(), 0.0f64.to_bits());
    assert_eq!(Binary64::infinity().to_bits(), f64::INFINITY.to_bits());
    assert_eq!(Binary64::neg_infinity().to_bits(), f64::NEG_INFINITY.to_bits());
    assert!(f64::from_bits(Binary64::nan().to_bits()).is_nan());
}
