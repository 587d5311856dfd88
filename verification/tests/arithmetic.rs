use mouse_jump::double::Double;

fn d(v: f64) -> Double {
    Double::from_bits(v.to_bits())
}

fn same(a: Double, b: f64) -> bool {
    let back = f64::from_bits(a.to_bits());
    if b.is_nan() {
        back.is_nan()
    } else {
        back.to_bits() == b.to_bits()
    }
}

fn samples() -> Vec<f64> {
    let mut v = vec![
        0.0,
        -0.0,
        1.0,
        -1.0,
        0.5,
        0.25,
        0.1,
        -0.1,
        1.5,
        3.0,
        1.0 / 3.0,
        32767.0,
        3840.0,
        2160.0,
        1920.5,
        -1920.25,
        4294967295.0,
        4294967296.0,
        2147483647.0,
        2147483648.0,
        -2147483648.0,
        -2147483649.0,
        9007199254740991.0,
        9007199254740992.0,
        9007199254740994.0,
        1e300,
        -1e300,
        1e-300,
        f64::MAX,
        f64::MIN,
        f64::MIN_POSITIVE,
        f64::MIN_POSITIVE / 2.0,
        5e-324,
        -5e-324,
        1e-310,
        f64::EPSILON,
        1.0 + f64::EPSILON,
        f64::INFINITY,
        f64::NEG_INFINITY,
        f64::NAN,
    ];
    // A fixed sequence of bit patterns, spread over all exponents.
    let mut bits: u64 = 0x9e37_79b9_7f4a_7c15;
    for _ in 0..60 {
        bits ^= bits << 13;
        bits ^= bits >> 7;
        bits ^= bits << 17;
        v.push(f64::from_bits(bits));
    }
    // And some of moderate size.
    for i in 0..40u32 {
        let f = f64::from(i * i * 7919 + 1) / f64::from(i + 3);
        v.push(f);
        v.push(-f);
    }
    v
}

#[test]
fn bits_there_and_back() {
    for v in samples() {
        assert!(same(d(v), v), "{v}");
    }
    assert_eq!(
        d(1.0),
        Double::Finite { negative: false, significand: 1 << 52, exponent: -52 }
    );
}

#[test]
fn quotients_are_those_of_f64() {
    for a in samples() {
        for b in samples() {
            assert!(same(d(a).quotient(d(b)), a / b), "{a} / {b}");
        }
    }
}

#[test]
fn products_are_those_of_f64() {
    for a in samples() {
        for b in samples() {
            assert!(same(d(a).product(d(b)), a * b), "{a} * {b}");
        }
    }
}

#[test]
fn sums_are_those_of_f64() {
    for a in samples() {
        for b in samples() {
            assert!(same(d(a).sum(d(b)), a + b), "{a} + {b}");
        }
    }
}

#[test]
fn comparisons_are_those_of_f64() {
    for a in samples() {
        for b in samples() {
            assert_eq!(d(a).exceeds(d(b)), a > b, "{a} > {b}");
        }
        assert_eq!(d(a).is_zero(), a == 0.0, "{a}");
        assert_eq!(d(a).is_at_least_zero(), a >= 0.0, "{a}");
    }
}

#[test]
fn conversions_are_those_of_f64() {
    for a in samples() {
        assert_eq!(d(a).to_u32(), a as u32, "{a}");
        assert_eq!(d(a).to_i32(), a as i32, "{a}");
    }
    for v in [0, 1, -1, 7, 1920, -1080, 4294967295, -2147483648, 1 << 53, (1 << 53) - 1] {
        assert!(same(Double::integer(v), v as f64), "{v}");
    }
    assert!(same(Double::scaled(1, -2), 0.25));
    assert!(same(Double::scaled(-3, 4), -48.0));
}
