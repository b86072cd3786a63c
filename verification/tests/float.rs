//! Double arithmetic, held against the machine's own.

use hackrf_proxyd::float::Float;

fn float(value: f64) -> Float {
    Float::from_bits(value.to_bits())
}

/// Values that doubles are known to be difficult at.
fn values() -> Vec<f64> {
    let mut values = vec![
        0.0,
        -0.0,
        0.1,
        0.3,
        0.5,
        0.674,
        0.75,
        0.999,
        1.0,
        1.5,
        2.5,
        -2.5,
        3.0,
        1e3,
        1e6,
        1e9,
        433.92,
        2_000_000.0,
        9_007_199_254_740_991.0,
        9_007_199_254_740_993.0,
        1.8446744073709552e19,
        9.223372036854775e18,
        -9.223372036854775808e18,
        1e300,
        -1e300,
        f64::MAX,
        f64::MIN_POSITIVE,
        5e-324,
        2.2250738585072011e-308,
        f64::INFINITY,
        f64::NEG_INFINITY,
        f64::NAN,
        65_535.5,
        65_534.5,
    ];
    // A few hundred more, spread over the exponents.
    let mut bits = 0x9E37_79B9_7F4A_7C15u64;
    for _ in 0..300 {
        bits = bits.wrapping_mul(6_364_136_223_846_793_005).wrapping_add(1_442_695_040_888_963_407);
        values.push(f64::from_bits(bits));
        // Of moderate size.
        values.push(f64::from_bits((bits & 0x800F_FFFF_FFFF_FFFF) | 0x40E0_0000_0000_0000));
    }
    values
}

/// The two agree where neither is a NaN, whose bits are nobody's business.
fn same(ours: Float, theirs: f64) -> bool {
    let bits = theirs.to_bits();
    if theirs.is_nan() {
        f64::from_bits(ours.bits).is_nan()
    } else {
        ours.bits == bits
    }
}

#[test]
fn products_are_the_machines() {
    for a in values() {
        for b in values() {
            assert!(same(float(a).times(float(b)), a * b), "{a:e} * {b:e}");
        }
    }
}

#[test]
fn quotients_are_the_machines() {
    for a in values() {
        for b in values() {
            assert!(same(float(a).over(float(b)), a / b), "{a:e} / {b:e}");
        }
    }
}

#[test]
fn conversions_are_the_machines() {
    for value in [
        0u64,
        1,
        3,
        315_000_000,
        (1 << 53) - 1,
        1 << 53,
        (1 << 53) + 1,
        (1 << 53) + 3,
        (1 << 60) + 1,
        u64::MAX - 1,
        u64::MAX,
    ] {
        assert!(same(Float::from_u64(value), value as f64), "{value}");
        assert!(same(Float::from_i64(value as i64), value as i64 as f64), "{}", value as i64);
        assert!(same(Float::from_i64((value as i64).wrapping_neg()), (value as i64).wrapping_neg() as f64));
    }
}

#[test]
fn roundings_are_the_machines() {
    for a in values() {
        assert_eq!(float(a).round_to_u64(), a.round() as u64, "{a:e}");
        assert_eq!(float(a).round_to_i64(), a.round() as i64, "{a:e}");
        assert_eq!(float(a).round_to_usize(), a.round() as usize, "{a:e}");
        assert_eq!(float(a).round_to_u16(), a.round() as u16, "{a:e}");
        assert_eq!(float(a).ceil_to_usize(), a.ceil() as usize, "{a:e}");
        assert_eq!(float(a).trunc_to_usize(), a as usize, "{a:e}");
    }
}

#[test]
fn signs_are_the_machines() {
    for a in values() {
        assert_eq!(float(a).is_positive(), a.is_finite() && a > 0.0, "{a:e}");
    }
}

#[test]
fn tenths_are_rounded_to_even() {
    assert_eq!(float(0.25).tenths(), 2);
    assert_eq!(float(0.75).tenths(), 8);
    assert_eq!(float(30.05).tenths(), 301, "the double lies above the decimal");
    assert_eq!(float(1e6).tenths(), 10_000_000);
}
