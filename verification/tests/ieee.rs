use nifti_volume::ieee::{Binary32, Binary64};

/// A fixed pseudo-random sequence of 64-bit patterns.
fn patterns(count: usize) -> Vec<u64> {
    let mut state: u64 = 0x9e37_79b9_7f4a_7c15;
    let mut out = Vec::with_capacity(count);
    for _ in 0..count {
        state ^= state << 13;
        state ^= state >> 7;
        state ^= state << 17;
        out.push(state);
    }
    out
}

fn singles() -> Vec<f32> {
    let mut values: Vec<f32> = vec![
        0.0,
        -0.0,
        1.0,
        -1.0,
        0.5,
        0.999_999_94,
        1.5,
        352.0,
        352.75,
        1e-45,
        1.1754942e-38,
        1.17549435e-38,
        16_777_216.0,
        4_294_967_296.0,
        4_294_967_040.0,
        1.8446744e19,
        1.8446743e19,
        3.4028235e38,
        f32::INFINITY,
        f32::NEG_INFINITY,
        f32::MIN_POSITIVE,
        f32::EPSILON,
    ];
    for pattern in patterns(4000) {
        values.push(f32::from_bits(pattern as u32));
    }
    values
}

#[test]
fn to_usize_matches_the_machine_conversion() {
    for value in singles() {
        let ours = Binary32 { bits: value.to_bits() }.to_usize();
        assert_eq!(ours, value as usize, "value {:?}", value);
    }
}

#[test]
fn to_usize_of_not_a_number_is_zero() {
    assert_eq!(Binary32 { bits: 0x7fc0_0000 }.to_usize(), 0);
    assert_eq!(Binary32 { bits: 0xffc0_0001 }.to_usize(), 0);
    assert_eq!(Binary32 { bits: 0x7f80_0001 }.to_usize(), 0);
}

#[test]
fn to_usize_drops_the_fraction_and_saturates() {
    assert_eq!(Binary32 { bits: 352.0f32.to_bits() }.to_usize(), 352);
    assert_eq!(Binary32 { bits: 352.99f32.to_bits() }.to_usize(), 352);
    assert_eq!(Binary32 { bits: 0.99f32.to_bits() }.to_usize(), 0);
    assert_eq!(Binary32 { bits: (-5.0f32).to_bits() }.to_usize(), 0);
    assert_eq!(Binary32 { bits: f32::INFINITY.to_bits() }.to_usize(), usize::MAX);
    assert_eq!(Binary32 { bits: 1e30f32.to_bits() }.to_usize(), usize::MAX);
}

#[test]
fn equals_zero_tells_both_zeros_and_nothing_else() {
    assert!(Binary32 { bits: 0 }.equals_zero());
    assert!(Binary32 { bits: 0x8000_0000 }.equals_zero());
    assert!(!Binary32 { bits: 1 }.equals_zero());
    assert!(!Binary32 { bits: 0x7fc0_0000 }.equals_zero());
    for value in singles() {
        assert_eq!(Binary32 { bits: value.to_bits() }.equals_zero(), value == 0.0);
    }
}

#[test]
fn widen_matches_the_machine_conversion() {
    for value in singles() {
        let wide = Binary32 { bits: value.to_bits() }.widen();
        if value.is_nan() {
            assert!(f64::from_bits(wide.bits).is_nan());
            assert!(wide.check_nan());
        } else {
            assert_eq!(wide.bits, (value as f64).to_bits(), "value {:?}", value);
        }
    }
}

#[test]
fn widen_keeps_sign_and_payload_of_not_a_number() {
    let wide = Binary32 { bits: 0xff80_0001 }.widen();
    assert_eq!(wide.bits, 0xfff8_0000_2000_0000);
    let wide = Binary32 { bits: 0x7fc0_0000 }.widen();
    assert_eq!(wide.bits, 0x7ff8_0000_0000_0000);
}

#[test]
fn widen_of_the_smallest_subnormal() {
    let wide = Binary32 { bits: 1 }.widen();
    assert_eq!(wide.bits, 0x36a0_0000_0000_0000);
    let wide = Binary32 { bits: 0x8000_0000 }.widen();
    assert_eq!(wide.bits, 0x8000_0000_0000_0000);
}

#[test]
fn from_i32_matches_the_machine_conversion() {
    let mut values: Vec<i32> = vec![0, 1, -1, 2, 255, -128, 32767, -32768, i32::MAX, i32::MIN];
    for pattern in patterns(4000) {
        values.push(pattern as i32);
        values.push((pattern >> 40) as i32);
    }
    for value in values {
        assert_eq!(Binary64::from_i32(value).bits, (value as f64).to_bits(), "value {}", value);
    }
}

#[test]
fn from_u32_matches_the_machine_conversion() {
    let mut values: Vec<u32> = vec![0, 1, 2, 255, 65535, u32::MAX, 0x8000_0000];
    for pattern in patterns(4000) {
        values.push(pattern as u32);
        values.push((pattern >> 50) as u32);
    }
    for value in values {
        assert_eq!(Binary64::from_u32(value).bits, (value as f64).to_bits(), "value {}", value);
    }
}

#[test]
fn from_i64_rounds_to_the_nearest_value() {
    let mut values: Vec<i64> = vec![
        0,
        1,
        -1,
        i64::MAX,
        i64::MIN,
        i64::MIN + 1,
        1 << 53,
        (1 << 53) + 1,
        (1 << 53) + 2,
        (1 << 53) + 3,
        -(1 << 53) - 1,
        (1 << 54) + 2,
        (1 << 54) + 6,
        (1 << 62) + 255,
        (1 << 62) + 256,
        (1 << 62) + 257,
        (1 << 62) + 768,
    ];
    for pattern in patterns(4000) {
        values.push(pattern as i64);
        values.push((pattern >> 7) as i64);
        values.push(-((pattern >> 9) as i64));
    }
    for value in values {
        assert_eq!(Binary64::from_i64(value).bits, (value as f64).to_bits(), "value {}", value);
    }
}

#[test]
fn from_u64_rounds_to_the_nearest_value() {
    let mut values: Vec<u64> = vec![0, 1, u64::MAX, u64::MAX - 1024, 1 << 63, (1 << 63) + 1024, (1 << 63) + 1025, (1 << 53) + 1];
    for pattern in patterns(4000) {
        values.push(pattern);
        values.push(pattern >> 10);
        values.push(pattern >> 11);
    }
    for value in values {
        assert_eq!(Binary64::from_u64(value).bits, (value as f64).to_bits(), "value {}", value);
    }
}

#[test]
fn zero_is_positive_zero() {
    assert_eq!(Binary64::zero().bits, 0);
    assert_eq!(Binary64::from_i32(0).bits, 0.0f64.to_bits());
}

fn doubles() -> Vec<f64> {
    let mut values: Vec<f64> = vec![
        0.0,
        -0.0,
        1.0,
        -1.0,
        f64::INFINITY,
        f64::NEG_INFINITY,
        f64::NAN,
        -f64::NAN,
        f64::MIN_POSITIVE,
        5e-324,
        -5e-324,
        f64::MAX,
        f64::MIN,
        0.1,
        0.2,
        -0.1,
    ];
    for pattern in patterns(300) {
        values.push(f64::from_bits(pattern));
        values.push(f64::from_bits(pattern >> 1));
    }
    values
}

#[test]
fn less_than_matches_the_machine_comparison() {
    let values = doubles();
    for &a in &values {
        for &b in &values {
            let ours = Binary64 { bits: a.to_bits() }.less_than(Binary64 { bits: b.to_bits() });
            assert_eq!(ours, a < b, "{:?} < {:?}", a, b);
        }
    }
}

#[test]
fn equal_to_matches_the_machine_comparison() {
    let values = doubles();
    for &a in &values {
        for &b in &values {
            let ours = Binary64 { bits: a.to_bits() }.equal_to(Binary64 { bits: b.to_bits() });
            assert_eq!(ours, a == b, "{:?} == {:?}", a, b);
        }
    }
}

#[test]
fn check_nan_matches_the_machine() {
    for value in doubles() {
        assert_eq!(Binary64 { bits: value.to_bits() }.check_nan(), value.is_nan());
    }
}

#[test]
fn to_u64_matches_the_machine_conversion() {
    let mut values = doubles();
    values.extend_from_slice(&[
        0.999_999_999,
        1.0,
        1.999,
        254.999_999,
        255.0,
        4_503_599_627_370_496.0,
        9_007_199_254_740_993.0,
        1.8446744073709552e19,
        1.844674407370955e19,
        1e19,
        1e20,
        -1.0,
    ]);
    for value in values {
        let ours = Binary64 { bits: value.to_bits() }.to_u64();
        assert_eq!(ours, value as u64, "value {:?}", value);
    }
}

#[test]
fn abs_drops_the_sign_bit() {
    assert_eq!(Binary64 { bits: (-1.5f64).to_bits() }.abs(), 1.5f64.to_bits());
    assert_eq!(Binary64 { bits: 1.5f64.to_bits() }.abs(), 1.5f64.to_bits());
    assert_eq!(Binary64 { bits: 0x8000_0000_0000_0000 }.abs(), 0);
}
