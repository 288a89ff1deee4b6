use nifti_volume::ieee::Binary64;

fn bits(value: f64) -> Binary64 {
    Binary64 { bits: value.to_bits() }
}

/// A fixed pseudo-random sequence of 64-bit patterns.
fn patterns(count: usize, seed: u64) -> Vec<u64> {
    let mut state: u64 = seed;
    let mut out = Vec::with_capacity(count);
    for _ in 0..count {
        state ^= state << 13;
        state ^= state >> 7;
        state ^= state << 17;
        out.push(state);
    }
    out
}

fn special_values() -> Vec<f64> {
    vec![
        0.0,
        -0.0,
        1.0,
        -1.0,
        2.0,
        0.5,
        3.0,
        1.0 / 3.0,
        0.1,
        255.0,
        1e308,
        -1e308,
        f64::MAX,
        f64::MIN,
        f64::MIN_POSITIVE,
        -f64::MIN_POSITIVE,
        f64::MIN_POSITIVE / 2.0,
        5e-324,
        -5e-324,
        1.5e-323,
        f64::EPSILON,
        1.0 + f64::EPSILON,
        1.0 - f64::EPSILON / 2.0,
        2.0f64.powi(52),
        2.0f64.powi(53),
        2.0f64.powi(53) + 2.0,
        2.0f64.powi(-1022) * 1.5,
        2.0f64.powi(1023),
        2.0f64.powi(-537),
        2.0f64.powi(512),
        f64::INFINITY,
        f64::NEG_INFINITY,
        f64::NAN,
        -f64::NAN,
    ]
}

/// Pairs of operands: the special values with one another, and patterns of
/// every kind, some far apart and some close in exponent.
fn operands() -> Vec<(f64, f64)> {
    let mut pairs = Vec::new();
    for &a in &special_values() {
        for &b in &special_values() {
            pairs.push((a, b));
        }
    }
    let raw = patterns(60_000, 0x9e37_79b9_7f4a_7c15);
    for pair in raw.chunks(2) {
        let (a, b) = (pair[0], pair[1]);
        pairs.push((f64::from_bits(a), f64::from_bits(b)));
        // the same exponent, and exponents a few apart
        let near = (a & 0xfff0_0000_0000_0000) | (b & 0x000f_ffff_ffff_ffff);
        pairs.push((f64::from_bits(a), f64::from_bits(near)));
        let step = ((b >> 52) % 70) << 52;
        pairs.push((f64::from_bits(a), f64::from_bits(near.wrapping_add(step))));
        pairs.push((f64::from_bits(a), f64::from_bits(near.wrapping_sub(step) ^ (b & (1 << 63)))));
        // small exponents, where results are subnormal
        let low = (a & 0x800f_ffff_ffff_ffff) | (((a >> 52) % 64) << 52);
        pairs.push((f64::from_bits(low), f64::from_bits(b)));
        pairs.push((f64::from_bits(low), f64::from_bits(near & 0x803f_ffff_ffff_ffff)));
        // exponents around the middle, where products and quotients stay in range
        let middle = (b & 0x800f_ffff_ffff_ffff) | ((0x3c0 + ((b >> 52) % 128)) << 52);
        pairs.push((f64::from_bits(a), f64::from_bits(middle)));
        pairs.push((f64::from_bits(low), f64::from_bits(middle)));
        let other = (a & 0x800f_ffff_ffff_ffff) | ((0x3c0 + ((a >> 53) % 128)) << 52);
        pairs.push((f64::from_bits(other), f64::from_bits(middle)));
    }
    pairs
}

/// Equal as results: the same pattern, or both NaN.
fn agree(ours: Binary64, machine: f64) -> bool {
    if machine.is_nan() {
        ours.bits == 0x7ff8_0000_0000_0000
    } else {
        ours.bits == machine.to_bits()
    }
}

#[test]
fn times_matches_machine_multiplication() {
    for (a, b) in operands() {
        assert!(agree(bits(a).times(bits(b)), a * b), "{:?} * {:?}", a, b);
    }
}

#[test]
fn times_rounds_ties_to_even() {
    // (1 + 2^-52) * (1 + 2^-52) = 1 + 2^-51 + 2^-104
    let a = 1.0 + f64::EPSILON;
    assert_eq!(bits(a).times(bits(a)).bits, (1.0 + 2.0 * f64::EPSILON).to_bits());
    // 3 * 2^-1074 * 0.5 = 1.5 * 2^-1074, a tie between 1 and 2 units
    assert_eq!(bits(1.5e-323).times(bits(0.5)).bits, 2);
    // 2^-1074 * 0.5 is a tie between 0 and 1 unit
    assert_eq!(bits(5e-324).times(bits(0.5)).bits, 0);
    assert_eq!(bits(-5e-324).times(bits(0.5)).bits, 0x8000_0000_0000_0000);
}

#[test]
fn times_overflows_to_infinity() {
    assert_eq!(bits(f64::MAX).times(bits(2.0)).bits, f64::INFINITY.to_bits());
    assert_eq!(bits(f64::MAX).times(bits(-2.0)).bits, f64::NEG_INFINITY.to_bits());
    assert_eq!(bits(1e200).times(bits(1e200)).bits, f64::INFINITY.to_bits());
}

#[test]
fn plus_matches_machine_addition() {
    for (a, b) in operands() {
        assert!(agree(bits(a).plus(bits(b)), a + b), "{:?} + {:?}", a, b);
    }
}

#[test]
fn minus_matches_machine_subtraction() {
    for (a, b) in operands() {
        assert!(agree(bits(a).minus(bits(b)), a - b), "{:?} - {:?}", a, b);
    }
}

#[test]
fn over_matches_machine_division() {
    for (a, b) in operands() {
        assert!(agree(bits(a).over(bits(b)), a / b), "{:?} / {:?}", a, b);
    }
}

#[test]
fn plus_of_zeros_keeps_the_sign_only_of_two_negative_zeros() {
    assert_eq!(bits(0.0).plus(bits(0.0)).bits, 0);
    assert_eq!(bits(0.0).plus(bits(-0.0)).bits, 0);
    assert_eq!(bits(-0.0).plus(bits(0.0)).bits, 0);
    assert_eq!(bits(-0.0).plus(bits(-0.0)).bits, 0x8000_0000_0000_0000);
    assert_eq!(bits(1.5).plus(bits(-1.5)).bits, 0);
    assert_eq!(bits(-1.5).minus(bits(-1.5)).bits, 0);
}

#[test]
fn plus_rounds_ties_to_even() {
    // 2^53 + 1 lies between 2^53 and 2^53 + 2
    let large = 2.0f64.powi(53);
    assert_eq!(bits(large).plus(bits(1.0)).bits, large.to_bits());
    assert_eq!(bits(large + 2.0).plus(bits(1.0)).bits, (large + 4.0).to_bits());
    assert_eq!(bits(large).plus(bits(1.000_000_1)).bits, (large + 2.0).to_bits());
    assert_eq!(bits(large).minus(bits(0.5)).bits, large.to_bits());
    assert_eq!(bits(large).minus(bits(0.500_000_1)).bits, (large - 1.0).to_bits());
}

#[test]
fn plus_of_values_far_apart_keeps_the_larger() {
    assert_eq!(bits(1e300).plus(bits(1e-300)).bits, 1e300f64.to_bits());
    assert_eq!(bits(1e-300).plus(bits(-1e300)).bits, (-1e300f64).to_bits());
    assert_eq!(bits(1.0).minus(bits(5e-324)).bits, 1.0f64.to_bits());
    assert_eq!(bits(f64::MAX).plus(bits(f64::MAX)).bits, f64::INFINITY.to_bits());
}

#[test]
fn over_gives_the_correctly_rounded_quotient() {
    assert_eq!(bits(1.0).over(bits(3.0)).bits, (1.0f64 / 3.0).to_bits());
    assert_eq!(bits(1.0).over(bits(3.0)).bits, 0x3fd5_5555_5555_5555);
    assert_eq!(bits(2.0).over(bits(3.0)).bits, 0x3fe5_5555_5555_5555);
    assert_eq!(bits(1.0).over(bits(0.0)).bits, f64::INFINITY.to_bits());
    assert_eq!(bits(-1.0).over(bits(0.0)).bits, f64::NEG_INFINITY.to_bits());
    assert_eq!(bits(1.0).over(bits(f64::NEG_INFINITY)).bits, (-0.0f64).to_bits());
    assert_eq!(bits(5e-324).over(bits(2.0)).bits, 0);
    assert_eq!(bits(1.5e-323).over(bits(2.0)).bits, 2);
    assert_eq!(bits(f64::MAX).over(bits(0.5)).bits, f64::INFINITY.to_bits());
}

#[test]
fn an_operation_without_a_number_gives_the_quiet_nan() {
    let nan = 0x7ff8_0000_0000_0000u64;
    assert_eq!(bits(0.0).over(bits(0.0)).bits, nan);
    assert_eq!(bits(f64::INFINITY).over(bits(f64::NEG_INFINITY)).bits, nan);
    assert_eq!(bits(f64::INFINITY).minus(bits(f64::INFINITY)).bits, nan);
    assert_eq!(bits(f64::INFINITY).plus(bits(f64::NEG_INFINITY)).bits, nan);
    assert_eq!(bits(0.0).times(bits(f64::INFINITY)).bits, nan);
    assert_eq!(Binary64 { bits: 0xfff0_0000_0000_0001 }.plus(bits(1.0)).bits, nan);
    assert_eq!(bits(1.0).times(Binary64 { bits: 0x7ff0_0000_0000_0001 }).bits, nan);
}

#[test]
fn negate_flips_the_sign_bit() {
    assert_eq!(bits(1.5).negate().bits, (-1.5f64).to_bits());
    assert_eq!(bits(-0.0).negate().bits, 0);
    assert_eq!(bits(f64::INFINITY).negate().bits, f64::NEG_INFINITY.to_bits());
    assert_eq!(Binary64 { bits: 0x7ff8_0000_0000_0001 }.negate().bits, 0xfff8_0000_0000_0001);
}
