use nifti_volume::ieee::Binary64;
use nifti_volume::lut::{ColorLookupTable, LutKind};
use nifti_volume::volume::{normalize, VolumeBufferBuilder, VolumeError};

fn bits(value: f64) -> Binary64 {
    Binary64 { bits: value.to_bits() }
}

fn scalars(values: &[f64]) -> Vec<Binary64> {
    values.iter().map(|&value| bits(value)).collect()
}

fn grey(level: u8) -> [u8; 4] {
    [level, level, level, 255]
}

fn grayscale() -> ColorLookupTable {
    ColorLookupTable::build(LutKind::Grayscale)
}

#[test]
fn the_buffer_has_one_colour_per_voxel() {
    for (width, height, depth) in [(1, 1, 1), (2, 3, 4), (4, 4, 4), (7, 1, 5), (0, 3, 3), (3, 0, 0)] {
        let count = width * height * depth;
        let values: Vec<f64> = (0..count).map(|i| i as f64).collect();
        let buffer = VolumeBufferBuilder::build(
            &scalars(&values),
            width,
            height,
            depth,
            &grayscale())
        .unwrap();
        assert_eq!(buffer.len(), width * height * depth);
    }
}

#[test]
fn a_flat_volume_has_the_colour_of_zero_everywhere() {
    let table = grayscale();
    let zero = table.lookup(bits(0.0));
    assert_eq!(zero, [0, 0, 0, 255]);
    for value in [0.0, -0.0, 1.0, 42.5, -1e300, f64::INFINITY] {
        let buffer =
            VolumeBufferBuilder::build(&scalars(&[value; 27]), 3, 3, 3, &table).unwrap();
        assert_eq!(buffer, vec![zero; 27], "value {:?}", value);
    }
}

#[test]
fn a_flat_volume_of_another_table_has_its_first_colour() {
    let mut entries = [[9u8, 8, 7, 6]; 256];
    entries[0] = [1, 2, 3, 4];
    let table = ColorLookupTable::from_entries(entries);
    let buffer = VolumeBufferBuilder::build(&scalars(&[5.0; 8]), 2, 2, 2, &table).unwrap();
    assert_eq!(buffer, vec![[1, 2, 3, 4]; 8]);
}

#[test]
fn both_zeros_are_one_value() {
    let buffer = VolumeBufferBuilder::build(
        &scalars(&[0.0, -0.0, 0.0, -0.0]),
        2,
        2,
        1,
        &grayscale())
    .unwrap();
    assert_eq!(buffer, vec![grey(0); 4]);
}

#[test]
fn a_volume_without_numbers_is_flat() {
    let buffer = VolumeBufferBuilder::build(
        &scalars(&[f64::NAN, f64::NAN]),
        2,
        1,
        1,
        &grayscale())
    .unwrap();
    assert_eq!(buffer, vec![grey(0); 2]);
    let buffer = VolumeBufferBuilder::build(&[], 0, 5, 5, &grayscale()).unwrap();
    assert_eq!(buffer, Vec::<[u8; 4]>::new());
}

#[test]
fn a_ramp_of_bytes_maps_to_itself() {
    let values: Vec<f64> = (0..256).map(|i| i as f64).collect();
    let buffer =
        VolumeBufferBuilder::build(&scalars(&values), 16, 4, 4, &grayscale()).unwrap();
    for (index, colour) in buffer.iter().enumerate() {
        assert_eq!(*colour, grey(index as u8));
    }
}

#[test]
fn the_order_of_the_input_is_kept() {
    let buffer = VolumeBufferBuilder::build(
        &scalars(&[10.0, 20.0, 0.0, 15.0, 5.0, 20.0]),
        3,
        2,
        1,
        &grayscale())
    .unwrap();
    assert_eq!(buffer, vec![grey(127), grey(255), grey(0), grey(191), grey(63), grey(255)]);
}

#[test]
fn negative_values_are_normalised_over_the_whole_range() {
    let buffer = VolumeBufferBuilder::build(
        &scalars(&[-100.0, 0.0, 100.0, -50.0]),
        2,
        2,
        1,
        &grayscale())
    .unwrap();
    assert_eq!(buffer, vec![grey(0), grey(127), grey(255), grey(63)]);
}

#[test]
fn not_a_number_is_left_out_of_the_range_and_coloured_as_zero() {
    let buffer = VolumeBufferBuilder::build(
        &scalars(&[f64::NAN, 2.0, 4.0, 3.0]),
        4,
        1,
        1,
        &grayscale())
    .unwrap();
    assert_eq!(buffer, vec![grey(0), grey(0), grey(255), grey(127)]);
}

#[test]
fn the_texture_matches_machine_arithmetic() {
    let mut state: u64 = 0x1234_5678_9abc_def1;
    let mut values = Vec::new();
    for _ in 0..4096 {
        state ^= state << 13;
        state ^= state >> 7;
        state ^= state << 17;
        values.push(((state >> 11) as f64 / (1u64 << 53) as f64 - 0.5) * 4000.0);
    }
    let least = values.iter().cloned().fold(f64::INFINITY, f64::min);
    let greatest = values.iter().cloned().fold(f64::NEG_INFINITY, f64::max);
    let buffer = VolumeBufferBuilder::build(&scalars(&values), 16, 16, 16, &grayscale()).unwrap();
    for (colour, value) in buffer.iter().zip(values) {
        let unit = (value - least) / (greatest - least);
        let level = (unit.clamp(0.0, 1.0) * 255.0).floor() as u8;
        assert_eq!(*colour, grey(level), "value {:?}", value);
    }
}

#[test]
fn normalize_matches_machine_arithmetic() {
    for (value, least, greatest) in [
        (5.0, 0.0, 10.0),
        (0.1, -0.3, 0.7),
        (1e300, -1e300, 1e300),
        (3.0, 3.0, 3.000_000_000_000_000_4),
        (-7.5, -7.5, 12.0),
        (12.0, -7.5, 12.0),
        (f64::NAN, 0.0, 1.0),
        (5e-324, 0.0, 1.5e-323),
        (f64::INFINITY, 0.0, 1.0),
        (0.5, f64::NEG_INFINITY, f64::INFINITY),
    ] {
        let ours = normalize(bits(value), bits(least), bits(greatest));
        let machine: f64 = (value - least) / (greatest - least);
        if machine.is_nan() {
            assert!(f64::from_bits(ours.bits).is_nan());
        } else {
            assert_eq!(ours.bits, machine.to_bits(), "{:?} in {:?}..{:?}", value, least, greatest);
        }
    }
    assert_eq!(normalize(bits(5.0), bits(2.0), bits(2.0)).bits, 0);
    assert_eq!(normalize(bits(5.0), bits(3.0), bits(2.0)).bits, 0);
    assert_eq!(normalize(bits(5.0), bits(f64::NAN), bits(2.0)).bits, 0);
}

#[test]
fn range_finds_the_least_and_the_greatest_value() {
    assert_eq!(VolumeBufferBuilder::range(&[]), None);
    assert_eq!(VolumeBufferBuilder::range(&scalars(&[f64::NAN])), None);
    assert_eq!(
        VolumeBufferBuilder::range(&scalars(&[1.0, -3.0, f64::NAN, 8.0, 2.0])),
        Some((bits(-3.0), bits(8.0)))
    );
    assert_eq!(
        VolumeBufferBuilder::range(&scalars(&[f64::INFINITY, f64::NEG_INFINITY, 0.0])),
        Some((bits(f64::NEG_INFINITY), bits(f64::INFINITY)))
    );
}

#[test]
fn range_keeps_the_first_of_equal_values() {
    assert_eq!(
        VolumeBufferBuilder::range(&scalars(&[-0.0, 0.0, 0.0])),
        Some((bits(-0.0), bits(-0.0)))
    );
    assert_eq!(
        VolumeBufferBuilder::range(&scalars(&[0.0, -0.0, 1.0])),
        Some((bits(0.0), bits(1.0)))
    );
}

#[test]
fn a_wrong_number_of_scalars_is_a_dimension_mismatch() {
    let table = grayscale();
    let values = scalars(&[1.0; 8]);
    for (width, height, depth) in [(2, 2, 1), (2, 2, 3), (8, 1, 0), (0, 0, 0), (9, 1, 1), (1, 1, 7)] {
        assert_eq!(
            VolumeBufferBuilder::build(&values, width, height, depth, &table),
            Err(VolumeError::DimensionMismatch)
        );
    }
    assert!(VolumeBufferBuilder::build(&values, 2, 2, 2, &table).is_ok());
    assert!(VolumeBufferBuilder::build(&values, 8, 1, 1, &table).is_ok());
}

#[test]
fn dimensions_whose_product_overflows_are_a_dimension_mismatch() {
    let table = grayscale();
    assert_eq!(
        VolumeBufferBuilder::build(&[], usize::MAX, usize::MAX, 2, &table),
        Err(VolumeError::DimensionMismatch)
    );
    assert_eq!(
        VolumeBufferBuilder::build(&[], usize::MAX, 2, 1, &table),
        Err(VolumeError::DimensionMismatch)
    );
    assert_eq!(
        VolumeBufferBuilder::build(&[], usize::MAX, usize::MAX, 0, &table),
        Ok(vec![])
    );
}

#[test]
fn matches_dimensions_compares_with_the_product() {
    assert!(VolumeBufferBuilder::matches_dimensions(24, 2, 3, 4));
    assert!(!VolumeBufferBuilder::matches_dimensions(23, 2, 3, 4));
    assert!(VolumeBufferBuilder::matches_dimensions(0, 0, usize::MAX, usize::MAX));
    assert!(!VolumeBufferBuilder::matches_dimensions(0, 1 << (usize::BITS / 2), 1 << (usize::BITS / 2), 1));
}

#[test]
fn a_range_of_the_callers_choosing_is_used_as_given() {
    let values = scalars(&[0.0, 50.0, 100.0, 150.0, 200.0, 400.0]);
    let buffer = VolumeBufferBuilder::build_over(
        &values,
        6,
        1,
        1,
        &grayscale(),
        bits(0.0),
        bits(200.0))
    .unwrap();
    assert_eq!(buffer, vec![grey(0), grey(63), grey(127), grey(191), grey(255), grey(255)]);
}

#[test]
fn an_empty_or_reversed_range_gives_a_uniform_texture() {
    let values = scalars(&[0.0, 50.0, 100.0]);
    for (least, greatest) in [(5.0, 5.0), (9.0, 1.0), (f64::NAN, 1.0), (0.0, f64::NAN), (0.0, -0.0)] {
        let buffer = VolumeBufferBuilder::build_over(
            &values,
            3,
            1,
            1,
            &grayscale(),
            bits(least),
            bits(greatest))
        .unwrap();
        assert_eq!(buffer, vec![grey(0); 3]);
    }
    assert_eq!(
        VolumeBufferBuilder::build_over(&values, 2, 1, 1, &grayscale(), bits(0.0), bits(1.0)),
        Err(VolumeError::DimensionMismatch)
    );
}

#[test]
fn index_of_counts_x_fastest() {
    assert_eq!(VolumeBufferBuilder::index_of(0, 0, 0, 4, 5, 6), Some(0));
    assert_eq!(VolumeBufferBuilder::index_of(1, 0, 0, 4, 5, 6), Some(1));
    assert_eq!(VolumeBufferBuilder::index_of(0, 1, 0, 4, 5, 6), Some(4));
    assert_eq!(VolumeBufferBuilder::index_of(0, 0, 1, 4, 5, 6), Some(20));
    assert_eq!(VolumeBufferBuilder::index_of(3, 4, 5, 4, 5, 6), Some(119));
    assert_eq!(VolumeBufferBuilder::index_of(2, 3, 1, 4, 5, 6), Some(34));
}

#[test]
fn index_of_refuses_what_is_outside_the_grid() {
    assert_eq!(VolumeBufferBuilder::index_of(4, 0, 0, 4, 5, 6), None);
    assert_eq!(VolumeBufferBuilder::index_of(0, 5, 0, 4, 5, 6), None);
    assert_eq!(VolumeBufferBuilder::index_of(0, 0, 6, 4, 5, 6), None);
    assert_eq!(VolumeBufferBuilder::index_of(0, 0, 0, 0, 5, 6), None);
    assert_eq!(VolumeBufferBuilder::index_of(0, 0, 0, usize::MAX, 2, 1), None);
    assert_eq!(VolumeBufferBuilder::index_of(0, 0, 0, usize::MAX, 1, 2), None);
}

#[test]
fn index_of_visits_every_place_once() {
    let (width, height, depth) = (3, 4, 5);
    let mut seen = vec![false; width * height * depth];
    let mut expected = 0;
    for z in 0..depth {
        for y in 0..height {
            for x in 0..width {
                let index = VolumeBufferBuilder::index_of(x, y, z, width, height, depth).unwrap();
                assert_eq!(index, expected);
                assert!(!seen[index]);
                seen[index] = true;
                expected += 1;
            }
        }
    }
    assert!(seen.iter().all(|&visited| visited));
}

#[test]
fn colorize_colours_whatever_number_of_scalars_it_is_given() {
    let values = scalars(&[0.0, 1.0, 2.0, 3.0, 4.0]);
    let buffer = VolumeBufferBuilder::colorize(&values, &grayscale());
    assert_eq!(buffer, vec![grey(0), grey(63), grey(127), grey(191), grey(255)]);
    let buffer = VolumeBufferBuilder::colorize_over(&values, &grayscale(), bits(1.0), bits(3.0));
    assert_eq!(buffer, vec![grey(0), grey(0), grey(127), grey(255), grey(255)]);
    assert_eq!(VolumeBufferBuilder::colorize(&[], &grayscale()), Vec::<[u8; 4]>::new());
}
