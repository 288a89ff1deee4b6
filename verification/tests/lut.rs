use nifti_volume::ieee::Binary64;
use nifti_volume::lut::{level_of, ColorLookupTable, LutKind};

fn bits(value: f64) -> Binary64 {
    Binary64 { bits: value.to_bits() }
}

fn machine_level(value: f64) -> u8 {
    let index = (value.clamp(0.0, 1.0) * 255.0).floor() as usize;
    index.min(255) as u8
}

#[test]
fn grayscale_lookup_of_one_is_white_and_of_zero_is_black() {
    let table = ColorLookupTable::build(LutKind::Grayscale);
    assert_eq!(table.lookup(bits(1.0)), [255, 255, 255, 255]);
    assert_eq!(table.lookup(bits(0.0)), [0, 0, 0, 255]);
}

#[test]
fn grayscale_entries_are_opaque_greys() {
    let table = ColorLookupTable::build(LutKind::Grayscale);
    for index in 0..=255u8 {
        assert_eq!(table.color(index), [index, index, index, 255]);
    }
}

#[test]
fn lookup_clamps_below_zero_and_above_one() {
    let table = ColorLookupTable::build(LutKind::Grayscale);
    assert_eq!(table.lookup(bits(-0.5)), [0, 0, 0, 255]);
    assert_eq!(table.lookup(bits(-0.0)), [0, 0, 0, 255]);
    assert_eq!(table.lookup(bits(f64::NEG_INFINITY)), [0, 0, 0, 255]);
    assert_eq!(table.lookup(bits(1.5)), [255, 255, 255, 255]);
    assert_eq!(table.lookup(bits(f64::INFINITY)), [255, 255, 255, 255]);
    assert_eq!(table.lookup(bits(f64::NAN)), [0, 0, 0, 255]);
    assert_eq!(table.lookup(bits(-f64::NAN)), [0, 0, 0, 255]);
}

#[test]
fn lookup_rounds_down_to_the_level() {
    let table = ColorLookupTable::build(LutKind::Grayscale);
    assert_eq!(table.lookup(bits(0.5)), [127, 127, 127, 255]);
    assert_eq!(table.lookup(bits(0.999)), [254, 254, 254, 255]);
    assert_eq!(table.lookup(bits(0.004)), [1, 1, 1, 255]);
    assert_eq!(table.lookup(bits(0.0039)), [0, 0, 0, 255]);
    assert_eq!(table.lookup(bits(5e-324)), [0, 0, 0, 255]);
}

#[test]
fn level_of_matches_double_precision_arithmetic_on_level_fractions() {
    for numerator in 0..=255u32 {
        let value = numerator as f64 / 255.0;
        assert_eq!(level_of(bits(value)), machine_level(value), "{}/255", numerator);
        let below = f64::from_bits(value.to_bits().wrapping_sub(1));
        let above = f64::from_bits(value.to_bits() + 1);
        if numerator > 0 {
            assert_eq!(level_of(bits(below)), machine_level(below), "below {}/255", numerator);
        }
        assert_eq!(level_of(bits(above)), machine_level(above), "above {}/255", numerator);
    }
}

#[test]
fn level_of_matches_double_precision_arithmetic_on_many_patterns() {
    let mut state: u64 = 0x2545_f491_4f6c_dd1d;
    for round in 0..200_000u32 {
        state ^= state << 13;
        state ^= state >> 7;
        state ^= state << 17;
        let value = if round % 2 == 0 {
            f64::from_bits(state)
        } else {
            // a value in [0, 2)
            f64::from_bits(0x3ff0_0000_0000_0000 | (state >> 12)) - 1.0 + ((state & 1) as f64)
        };
        assert_eq!(level_of(bits(value)), machine_level(value), "value {:?}", value);
    }
}

#[test]
fn level_of_matches_double_precision_arithmetic_near_one_and_zero() {
    let samples = [
        1.0 - f64::EPSILON,
        1.0 - f64::EPSILON / 2.0,
        1.0,
        1.0 + f64::EPSILON,
        f64::MIN_POSITIVE,
        f64::MIN_POSITIVE / 2.0,
        1.0 / 255.0,
        254.0 / 255.0,
        254.999_999_999_999_97 / 255.0,
        0.003_921_568_627_450_98,
        0.003_921_568_627_450_981,
        2.0f64.powi(-60),
        2.0f64.powi(-8),
        2.0f64.powi(-8) - 2.0f64.powi(-61),
    ];
    for value in samples {
        assert_eq!(level_of(bits(value)), machine_level(value), "value {:?}", value);
    }
}

#[test]
fn a_table_of_the_callers_colours_is_looked_up_like_any_other() {
    let mut entries = [[0u8; 4]; 256];
    for (index, entry) in entries.iter_mut().enumerate() {
        *entry = [255 - index as u8, 0, index as u8, 128];
    }
    let table = ColorLookupTable::from_entries(entries);
    assert_eq!(table.lookup(bits(0.0)), [255, 0, 0, 128]);
    assert_eq!(table.lookup(bits(1.0)), [0, 0, 255, 128]);
    assert_eq!(table.lookup(bits(0.5)), [128, 0, 127, 128]);
    assert_eq!(table.color(10), [245, 0, 10, 128]);
}
