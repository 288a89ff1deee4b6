use nifti_volume::header::{HeaderDecoder, HeaderError, Nifti1Header, HEADER_SIZE};
use nifti_volume::ieee::Binary32;

fn single(value: f32) -> Binary32 {
    Binary32 { bits: value.to_bits() }
}

/// A 348-byte record with the given size field, dimensions, datatype code,
/// data offset and slope, written by hand at the offsets of the format.
fn record(sizeof_hdr: i32, dim: [i16; 8], datatype: i16, vox_offset: f32, scl_slope: f32) -> Vec<u8> {
    let mut bytes = vec![0u8; 348];
    bytes[0..4].copy_from_slice(&sizeof_hdr.to_le_bytes());
    for (k, entry) in dim.iter().enumerate() {
        bytes[40 + 2 * k..42 + 2 * k].copy_from_slice(&entry.to_le_bytes());
    }
    bytes[70..72].copy_from_slice(&datatype.to_le_bytes());
    bytes[72..74].copy_from_slice(&8i16.to_le_bytes());
    bytes[108..112].copy_from_slice(&vox_offset.to_le_bytes());
    bytes[112..116].copy_from_slice(&scl_slope.to_le_bytes());
    bytes[344..348].copy_from_slice(b"n+1\0");
    bytes
}

fn sample_header() -> Nifti1Header {
    let mut descrip = [0u8; 80];
    descrip[..11].copy_from_slice(b"test volume");
    let mut aux_file = [0u8; 24];
    aux_file[..4].copy_from_slice(b"none");
    let mut intent_name = [0u8; 16];
    intent_name[..3].copy_from_slice(b"abc");
    Nifti1Header {
        sizeof_hdr: 348,
        data_type: [1, 2, 3, 4, 5, 6, 7, 8, 9, 10],
        db_name: [11; 18],
        extents: -16384,
        session_error: -2,
        regular: b'r',
        dim_info: 0x39,
        dim: [3, 4, 5, 6, 1, 1, 1, 1],
        intent_p1: single(1.5),
        intent_p2: single(-2.25),
        intent_p3: single(f32::NAN),
        intent_code: 1001,
        datatype: 4,
        bitpix: 16,
        slice_start: 0,
        pixdim: [
            single(-1.0),
            single(0.5),
            single(0.5),
            single(2.0),
            single(0.0),
            single(1.0),
            single(1.0),
            single(1.0),
        ],
        vox_offset: single(352.0),
        scl_slope: single(2.0),
        scl_inter: single(-1024.0),
        slice_end: 5,
        slice_code: 1,
        xyzt_units: 10,
        cal_max: single(255.0),
        cal_min: single(0.0),
        slice_duration: single(0.0),
        toffset: single(-0.0),
        glmax: i32::MAX,
        glmin: i32::MIN,
        descrip,
        aux_file,
        qform_code: 1,
        sform_code: -1,
        quatern_b: single(0.1),
        quatern_c: single(0.2),
        quatern_d: single(0.3),
        qoffset_x: single(-90.0),
        qoffset_y: single(126.0),
        qoffset_z: single(-72.0),
        srow_x: [single(1.0), single(0.0), single(0.0), single(-90.0)],
        srow_y: [single(0.0), single(1.0), single(0.0), single(126.0)],
        srow_z: [single(0.0), single(0.0), single(1.0), single(-72.0)],
        intent_name,
        magic: *b"n+1\0",
    }
}

#[test]
fn every_buffer_shorter_than_the_record_is_truncated_input() {
    let full = record(348, [3, 4, 4, 4, 1, 1, 1, 1], 2, 352.0, 0.0);
    for length in 0..348 {
        assert_eq!(
            HeaderDecoder::decode(&full[..length]),
            Err(HeaderError::TruncatedInput),
            "length {}",
            length
        );
    }
}

#[test]
fn an_empty_buffer_is_truncated_input() {
    assert_eq!(HeaderDecoder::decode(&[]), Err(HeaderError::TruncatedInput));
}

#[test]
fn a_wrong_size_field_is_a_malformed_header() {
    for sizeof_hdr in [0, 1, 347, 349, -348, 540, 1_543_503_872, i32::MAX, i32::MIN] {
        let bytes = record(sizeof_hdr, [3, 4, 4, 4, 1, 1, 1, 1], 2, 352.0, 0.0);
        assert_eq!(bytes.len(), HEADER_SIZE);
        assert_eq!(
            HeaderDecoder::decode(&bytes),
            Err(HeaderError::MalformedHeader),
            "sizeof_hdr {}",
            sizeof_hdr
        );
    }
}

#[test]
fn a_big_endian_size_field_is_a_malformed_header() {
    let mut bytes = record(348, [3, 4, 4, 4, 1, 1, 1, 1], 2, 352.0, 0.0);
    bytes[0..4].copy_from_slice(&348i32.to_be_bytes());
    assert_eq!(HeaderDecoder::decode(&bytes), Err(HeaderError::MalformedHeader));
}

#[test]
fn a_synthetic_record_decodes_to_its_field_values() {
    let bytes = record(348, [3, 4, 4, 4, 1, 1, 1, 1], 2, 352.0, 0.0);
    let header = HeaderDecoder::decode(&bytes).unwrap();
    assert_eq!(header.sizeof_hdr, 348);
    assert_eq!(header.dim, [3, 4, 4, 4, 1, 1, 1, 1]);
    assert_eq!(header.datatype, 2);
    assert_eq!(header.bitpix, 8);
    assert_eq!(f32::from_bits(header.vox_offset.bits), 352.0);
    assert_eq!(f32::from_bits(header.scl_slope.bits), 0.0);
    assert_eq!(header.magic, *b"n+1\0");
    assert_eq!(header.width(), 4);
    assert_eq!(header.height(), 4);
    assert_eq!(header.depth(), 4);
}

#[test]
fn encoding_then_decoding_gives_the_same_header() {
    let header = sample_header();
    let bytes = header.encode();
    assert_eq!(bytes.len(), 348);
    assert_eq!(HeaderDecoder::decode(&bytes), Ok(header));
}

#[test]
fn decoding_then_encoding_gives_the_same_record() {
    let mut bytes = vec![0u8; 348];
    let mut state: u32 = 12345;
    for byte in bytes.iter_mut() {
        state = state.wrapping_mul(1_103_515_245).wrapping_add(12345);
        *byte = (state >> 16) as u8;
    }
    bytes[0..4].copy_from_slice(&348i32.to_le_bytes());
    let header = HeaderDecoder::decode(&bytes).unwrap();
    assert_eq!(header.encode(), bytes);
}

#[test]
fn encode_writes_each_field_at_its_offset() {
    let bytes = sample_header().encode();
    assert_eq!(&bytes[0..4], &348i32.to_le_bytes());
    assert_eq!(&bytes[4..14], &[1, 2, 3, 4, 5, 6, 7, 8, 9, 10]);
    assert_eq!(&bytes[14..32], &[11u8; 18]);
    assert_eq!(&bytes[32..36], &(-16384i32).to_le_bytes());
    assert_eq!(&bytes[36..38], &(-2i16).to_le_bytes());
    assert_eq!(bytes[38], b'r');
    assert_eq!(bytes[39], 0x39);
    assert_eq!(&bytes[40..42], &3i16.to_le_bytes());
    assert_eq!(&bytes[42..44], &4i16.to_le_bytes());
    assert_eq!(&bytes[46..48], &6i16.to_le_bytes());
    assert_eq!(&bytes[56..60], &1.5f32.to_le_bytes());
    assert_eq!(&bytes[60..64], &(-2.25f32).to_le_bytes());
    assert_eq!(&bytes[68..70], &1001i16.to_le_bytes());
    assert_eq!(&bytes[70..72], &4i16.to_le_bytes());
    assert_eq!(&bytes[72..74], &16i16.to_le_bytes());
    assert_eq!(&bytes[76..80], &(-1.0f32).to_le_bytes());
    assert_eq!(&bytes[88..92], &2.0f32.to_le_bytes());
    assert_eq!(&bytes[108..112], &352.0f32.to_le_bytes());
    assert_eq!(&bytes[112..116], &2.0f32.to_le_bytes());
    assert_eq!(&bytes[116..120], &(-1024.0f32).to_le_bytes());
    assert_eq!(&bytes[120..122], &5i16.to_le_bytes());
    assert_eq!(bytes[122], 1);
    assert_eq!(bytes[123], 10);
    assert_eq!(&bytes[124..128], &255.0f32.to_le_bytes());
    assert_eq!(&bytes[136..140], &(-0.0f32).to_le_bytes());
    assert_eq!(&bytes[140..144], &i32::MAX.to_le_bytes());
    assert_eq!(&bytes[144..148], &i32::MIN.to_le_bytes());
    assert_eq!(&bytes[148..159], b"test volume");
    assert_eq!(&bytes[228..232], b"none");
    assert_eq!(&bytes[252..254], &1i16.to_le_bytes());
    assert_eq!(&bytes[254..256], &(-1i16).to_le_bytes());
    assert_eq!(&bytes[256..260], &0.1f32.to_le_bytes());
    assert_eq!(&bytes[276..280], &(-72.0f32).to_le_bytes());
    assert_eq!(&bytes[292..296], &(-90.0f32).to_le_bytes());
    assert_eq!(&bytes[308..312], &126.0f32.to_le_bytes());
    assert_eq!(&bytes[320..324], &1.0f32.to_le_bytes());
    assert_eq!(&bytes[328..331], b"abc");
    assert_eq!(&bytes[344..348], b"n+1\0");
}

#[test]
fn a_header_with_another_size_field_encodes_but_does_not_decode() {
    let mut header = sample_header();
    header.sizeof_hdr = 540;
    let bytes = header.encode();
    assert_eq!(bytes.len(), 348);
    assert_eq!(HeaderDecoder::decode(&bytes), Err(HeaderError::MalformedHeader));
}

#[test]
fn bytes_behind_the_record_are_ignored() {
    let mut bytes = sample_header().encode();
    bytes.extend_from_slice(&[0xff; 100]);
    assert_eq!(HeaderDecoder::decode(&bytes), Ok(sample_header()));
}

#[test]
fn dimensions_come_from_dim_alone() {
    let mut header = sample_header();
    header.dim = [3, 7, 8, 9, 1, 1, 1, 1];
    header.pixdim = [single(1.0), single(0.5), single(3.0), single(0.25), single(1.0), single(1.0), single(1.0), single(1.0)];
    assert_eq!((header.width(), header.height(), header.depth()), (7, 8, 9));
}

#[test]
fn a_negative_dimension_holds_no_voxels() {
    let mut header = sample_header();
    header.dim = [3, -1, 8, i16::MIN, 1, 1, 1, 1];
    assert_eq!((header.width(), header.height(), header.depth()), (0, 8, 0));
    header.dim = [3, i16::MAX, 0, 1, 1, 1, 1, 1];
    assert_eq!((header.width(), header.height(), header.depth()), (32767, 0, 1));
}

#[test]
fn a_record_of_the_other_byte_order_is_recognised() {
    let mut bytes = record(348, [3, 4, 4, 4, 1, 1, 1, 1], 2, 352.0, 0.0);
    assert!(!HeaderDecoder::is_byte_swapped(&bytes));
    bytes[0..4].copy_from_slice(&348i32.to_be_bytes());
    assert!(HeaderDecoder::is_byte_swapped(&bytes));
    assert_eq!(HeaderDecoder::decode(&bytes), Err(HeaderError::MalformedHeader));
    assert!(!HeaderDecoder::is_byte_swapped(&bytes[..347]));
    bytes[0..4].copy_from_slice(&349i32.to_be_bytes());
    assert!(!HeaderDecoder::is_byte_swapped(&bytes));
    assert_eq!(nifti_volume::header::SWAPPED_HEADER_SIZE, 348i32.swap_bytes());
}
