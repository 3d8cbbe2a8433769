use mavlink_wire::codec::{decode_field_at, decode_values, encode_field_into, encode_values, FieldValue};
use mavlink_wire::types::MavType;
use mavlink_wire::wire::{fits_width, get_le, put_le};

fn array(elem: MavType, count: usize) -> MavType {
    MavType::Array(Box::new(elem), count)
}

#[test]
fn little_endian_bytes() {
    let mut out = vec![0xaa];
    put_le(&mut out, 0x0102_0304_0506_0708, 8);
    assert_eq!(out, [0xaa, 8, 7, 6, 5, 4, 3, 2, 1]);
    let mut out = vec![];
    put_le(&mut out, 0x1234, 2);
    put_le(&mut out, 0xff, 1);
    put_le(&mut out, 1, 4);
    put_le(&mut out, 9, 0);
    assert_eq!(out, [0x34, 0x12, 0xff, 1, 0, 0, 0]);
    assert_eq!(get_le(&out, 0, 2), 0x1234);
    assert_eq!(get_le(&out, 2, 1), 0xff);
    assert_eq!(get_le(&out, 3, 4), 1);
    assert_eq!(get_le(&out, 1, 0), 0);
    assert_eq!(get_le(&[8, 7, 6, 5, 4, 3, 2, 1], 0, 8), 0x0102_0304_0506_0708);
}

#[test]
fn width_limits() {
    assert!(fits_width(255, 1));
    assert!(!fits_width(256, 1));
    assert!(fits_width(65535, 2));
    assert!(!fits_width(65536, 2));
    assert!(fits_width(0xffff_ffff, 4));
    assert!(!fits_width(0x1_0000_0000, 4));
    assert!(fits_width(u64::MAX, 8));
}

#[test]
fn payload_of_three_fields() {
    let layout = vec![MavType::UInt32, MavType::UInt16, MavType::UInt8];
    let values = vec![FieldValue::Scalar(1), FieldValue::Scalar(2), FieldValue::Scalar(3)];
    let payload = encode_values(&layout, &values).unwrap();
    assert_eq!(payload, [0x01, 0x00, 0x00, 0x00, 0x02, 0x00, 0x03]);
    assert_eq!(decode_values(&layout, &payload), Some(values));
}

#[test]
fn arrays_are_written_back_to_back() {
    let layout = vec![array(MavType::UInt16, 3), MavType::Int8, array(MavType::Char, 2)];
    let values = vec![
        FieldValue::Array(vec![0x0102, 0x0304, 0xffff]),
        FieldValue::Scalar(0x80),
        FieldValue::Array(vec![0x41, 0x42]),
    ];
    let payload = encode_values(&layout, &values).unwrap();
    assert_eq!(payload, [0x02, 0x01, 0x04, 0x03, 0xff, 0xff, 0x80, 0x41, 0x42]);
    assert_eq!(decode_values(&layout, &payload), Some(values));
}

#[test]
fn every_type_round_trips() {
    let layout = vec![
        MavType::UInt64,
        MavType::Int64,
        MavType::Double,
        MavType::UInt32,
        MavType::Int32,
        MavType::Float,
        MavType::UInt16,
        MavType::Int16,
        MavType::UInt8,
        MavType::Int8,
        MavType::Char,
        MavType::UInt8MavlinkVersion,
        array(MavType::Float, 2),
        array(MavType::UInt8, 0),
    ];
    let values = vec![
        FieldValue::Scalar(u64::MAX),
        FieldValue::Scalar((-5i64) as u64),
        FieldValue::Scalar(1.5f64.to_bits()),
        FieldValue::Scalar(0xdead_beef),
        FieldValue::Scalar((-7i32) as u32 as u64),
        FieldValue::Scalar(2.25f32.to_bits() as u64),
        FieldValue::Scalar(65535),
        FieldValue::Scalar((-2i16) as u16 as u64),
        FieldValue::Scalar(0),
        FieldValue::Scalar((-1i8) as u8 as u64),
        FieldValue::Scalar(b'x' as u64),
        FieldValue::Scalar(3),
        FieldValue::Array(vec![0.5f32.to_bits() as u64, (-0.5f32).to_bits() as u64]),
        FieldValue::Array(vec![]),
    ];
    let payload = encode_values(&layout, &values).unwrap();
    assert_eq!(payload.len(), 8 * 3 + 4 * 3 + 2 * 2 + 4 + 8);
    assert_eq!(&payload[8..16], &(-5i64).to_le_bytes());
    assert_eq!(&payload[16..24], &1.5f64.to_le_bytes());
    assert_eq!(&payload[32..36], &2.25f32.to_le_bytes());
    assert_eq!(decode_values(&layout, &payload), Some(values));
}

#[test]
fn values_that_do_not_fit_are_refused() {
    let layout = vec![MavType::UInt8, array(MavType::UInt16, 2)];
    let ok = vec![FieldValue::Scalar(255), FieldValue::Array(vec![1, 2])];
    assert!(encode_values(&layout, &ok).is_some());
    let too_wide = vec![FieldValue::Scalar(256), FieldValue::Array(vec![1, 2])];
    assert_eq!(encode_values(&layout, &too_wide), None);
    let wide_element = vec![FieldValue::Scalar(1), FieldValue::Array(vec![1, 65536])];
    assert_eq!(encode_values(&layout, &wide_element), None);
    let short_array = vec![FieldValue::Scalar(1), FieldValue::Array(vec![1])];
    assert_eq!(encode_values(&layout, &short_array), None);
    let wrong_shape = vec![FieldValue::Array(vec![1]), FieldValue::Array(vec![1, 2])];
    assert_eq!(encode_values(&layout, &wrong_shape), None);
    let scalar_for_array = vec![FieldValue::Scalar(1), FieldValue::Scalar(2)];
    assert_eq!(encode_values(&layout, &scalar_for_array), None);
    assert_eq!(encode_values(&layout, &vec![FieldValue::Scalar(1)]), None);
    assert_eq!(encode_values(&vec![], &vec![]), Some(vec![]));
}

#[test]
fn short_payloads_are_refused_and_long_ones_cut() {
    let layout = vec![MavType::UInt32, MavType::UInt16];
    assert_eq!(decode_values(&layout, &[1, 0, 0, 0, 2]), None);
    assert_eq!(decode_values(&layout, &[]), None);
    assert_eq!(
        decode_values(&layout, &[1, 0, 0, 0, 2, 0, 9, 9]),
        Some(vec![FieldValue::Scalar(1), FieldValue::Scalar(2)])
    );
    assert_eq!(decode_values(&vec![], &[1, 2, 3]), Some(vec![]));
    assert_eq!(decode_values(&vec![array(MavType::UInt64, usize::MAX)], &[0; 64]), None);
}

#[test]
fn single_fields() {
    let mut out = vec![7];
    assert!(encode_field_into(&MavType::Int16, &FieldValue::Scalar(0xfffe), &mut out));
    assert_eq!(out, [7, 0xfe, 0xff]);
    assert!(!encode_field_into(&MavType::Int16, &FieldValue::Scalar(0x1_0000), &mut out));
    assert_eq!(
        decode_field_at(&array(MavType::UInt8, 2), &out, 1),
        Some((FieldValue::Array(vec![0xfe, 0xff]), 3))
    );
    assert_eq!(decode_field_at(&MavType::UInt32, &out, 0), None);
    assert_eq!(decode_field_at(&MavType::UInt8, &out, 3), None);
}
