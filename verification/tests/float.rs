use bezpath_simplify::float::Float;

fn f(v: f64) -> Float {
    Float { bits: v.to_bits() }
}

/// Equal bits, or both not a number.
fn agrees(ours: Float, theirs: f64) -> bool {
    let v = f64::from_bits(ours.bits);
    ours.bits == theirs.to_bits() || (v.is_nan() && theirs.is_nan())
}

fn next(state: &mut u64) -> u64 {
    *state ^= *state << 13;
    *state ^= *state >> 7;
    *state ^= *state << 17;
    *state
}

/// Bit patterns of every kind: raw ones, ones of similar size, special ones.
fn samples() -> Vec<f64> {
    let mut state = 0x9e37_79b9_7f4a_7c15u64;
    let mut all = vec![
        0.0,
        -0.0,
        1.0,
        -1.0,
        0.5,
        -0.5,
        1.5,
        -1.5,
        2.0,
        3.0,
        0.1,
        -0.1,
        f64::INFINITY,
        f64::NEG_INFINITY,
        f64::NAN,
        f64::MAX,
        f64::MIN,
        f64::MIN_POSITIVE,
        f64::from_bits(1),
        f64::from_bits(0x000f_ffff_ffff_ffff),
        -f64::from_bits(1),
        f64::EPSILON,
        4503599627370496.0,
        4503599627370495.5,
        9007199254740991.0,
        9007199254740992.0,
        -4503599627370495.5,
        18446744073709551616.0,
        18446744073709549568.0,
        9223372036854775808.0,
        1e300,
        1e-300,
        1e-160,
        -1e-160,
        486.53000000000003,
        325.49,
    ];
    for _ in 0..60 {
        all.push(f64::from_bits(next(&mut state)));
    }
    for _ in 0..60 {
        let r = next(&mut state);
        let exponent = 1000 + (r >> 58);
        let sign = r & 0x8000_0000_0000_0000;
        all.push(f64::from_bits(sign | (exponent << 52) | (r & 0x000f_ffff_ffff_ffff)));
    }
    for _ in 0..40 {
        let r = next(&mut state);
        all.push(((r % 2_000_001) as f64 - 1_000_000.0) / 100.0);
    }
    all
}

#[test]
fn sums_agree_with_hardware() {
    for a in samples() {
        for b in samples() {
            assert!(agrees(f(a) + f(b), a + b), "{a:?} + {b:?}");
            assert!(agrees(f(a) - f(b), a - b), "{a:?} - {b:?}");
        }
    }
}

#[test]
fn products_agree_with_hardware() {
    for a in samples() {
        for b in samples() {
            assert!(agrees(f(a) * f(b), a * b), "{a:?} * {b:?}");
        }
    }
}

#[test]
fn comparisons_agree_with_hardware() {
    for a in samples() {
        for b in samples() {
            assert_eq!(f(a).at_most(f(b)), a <= b, "{a:?} <= {b:?}");
            assert_eq!(f(a).exceeds(f(b)), a > b, "{a:?} > {b:?}");
            assert_eq!(f(a) == f(b), a == b, "{a:?} == {b:?}");
        }
    }
}

#[test]
fn floor_and_index_agree_with_hardware() {
    for a in samples() {
        assert!(agrees(f(a).floor(), a.floor()), "floor of {a:?}");
        assert_eq!(f(a).to_index(), a as usize, "index of {a:?}");
        assert!(agrees(f(a).abs(), a.abs()), "abs of {a:?}");
        assert!(agrees(f(a).flip(), -a), "negation of {a:?}");
    }
}

#[test]
fn whole_numbers_agree_with_hardware() {
    let mut state = 7u64;
    for n in [0u64, 1, 2, 3, 280, 9007199254740993, 9007199254740995, u64::MAX] {
        assert!(agrees(Float::whole(n), n as f64), "{n}");
    }
    for _ in 0..200 {
        let n = next(&mut state);
        assert!(agrees(Float::whole(n), n as f64), "{n}");
    }
}

#[test]
fn quotients_agree_with_hardware() {
    assert_eq!(Float::quotient(1, 20).bits, 0.05f64.to_bits());
    assert_eq!(Float::quotient(1, 10).bits, 0.1f64.to_bits());
    assert_eq!(Float::quotient(1, 2).bits, 0.5f64.to_bits());
    assert_eq!(Float::quotient(1, 1000).bits, 1e-3f64.to_bits());
    assert_eq!(Float::quotient(1, 1_000_000_000_000).bits, 1e-12f64.to_bits());
    for n in 1..60u16 {
        for d in 1..900u64 {
            assert!(agrees(Float::quotient(n, d), n as f64 / d as f64), "{n} / {d}");
        }
    }
}

#[test]
fn a_tie_goes_to_the_even_number() {
    let one = 9007199254740992.0;
    assert!(agrees(f(one) + f(1.0), 9007199254740992.0));
    assert!(agrees(f(one) + f(3.0), 9007199254740996.0));
}

#[test]
fn undefined_operations_give_no_number() {
    assert!(f64::from_bits((f(f64::INFINITY) - f(f64::INFINITY)).bits).is_nan());
    assert!(f64::from_bits((f(f64::INFINITY) * f(0.0)).bits).is_nan());
    assert!(f(f64::NAN) != f(f64::NAN));
}

#[test]
fn rounding_is_nearest_and_keeps_order() {
    // One and the smallest step above it, and sums that fall between.
    let one = f(1.0);
    let next = f(1.0 + f64::EPSILON);
    let quarter = f(f64::EPSILON / 4.0);
    let three = f(3.0 * f64::EPSILON / 4.0);
    assert_eq!((one + quarter).bits, one.bits);
    assert_eq!((one + three).bits, next.bits);
    // Larger numbers have larger sums, or the same.
    let mut last = f(0.0);
    for i in 0..100u64 {
        let sum = one + f(i as f64 * f64::EPSILON / 8.0);
        assert!(last.at_most(sum));
        last = sum;
    }
    assert_eq!(v_of(last), 1.0 + 12.0 * f64::EPSILON);
}

fn v_of(x: Float) -> f64 {
    f64::from_bits(x.bits)
}
