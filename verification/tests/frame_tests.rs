use mavlink_wire::codec::FieldValue;
use mavlink_wire::frame::{assemble, check_frame, frame_checksum, read, validate, Header, MAV_STX};
use mavlink_wire::model::MavField;
use mavlink_wire::schema::{MavMessage, MavProfile};
use mavlink_wire::table::{CodecTable, MessageValue};
use mavlink_wire::types::MavType;

fn field(mavtype: MavType, name: &str) -> MavField {
    MavField { mavtype, name: name.to_string(), description: None, enumtype: None }
}

fn abc(fields: Vec<MavField>) -> MavProfile {
    MavProfile {
        includes: vec![],
        messages: vec![MavMessage { id: 7, name: "Abc".to_string(), description: None, fields }],
        enums: vec![],
    }
}

fn table() -> CodecTable {
    CodecTable::compile(&abc(vec![
        field(MavType::UInt8, "a"),
        field(MavType::UInt32, "b"),
        field(MavType::UInt16, "c"),
    ]))
}

fn header() -> Header {
    Header { sequence: 5, system_id: 1, component_id: 2 }
}

fn value(b: u64, c: u64, a: u64) -> MessageValue {
    MessageValue {
        id: 7,
        values: vec![FieldValue::Scalar(b), FieldValue::Scalar(c), FieldValue::Scalar(a)],
    }
}

#[test]
fn checksum_of_the_check_string() {
    assert_eq!(frame_checksum(b"12345678", b'9'), 0x6f91);
    assert_ne!(frame_checksum(b"12345678", b'8'), 0x6f91);
}

#[test]
fn frame_layout() {
    let t = table();
    let frame = mavlink_wire::frame::write(&t, header(), &value(1, 2, 3)).unwrap();
    assert_eq!(frame.len(), 8 + 7);
    assert_eq!(&frame[..6], &[MAV_STX, 7, 5, 1, 2, 7]);
    assert_eq!(&frame[6..13], &[0x01, 0x00, 0x00, 0x00, 0x02, 0x00, 0x03]);
    let mut input = frame[1..13].to_vec();
    let crc = frame_checksum(&input, t.extra_crc(7));
    assert_eq!(frame[13], (crc & 0xff) as u8);
    assert_eq!(frame[14], (crc >> 8) as u8);
    input.push(t.extra_crc(7));
    assert_eq!(frame_checksum(&input[..12], input[12]), crc);
}

#[test]
fn assemble_puts_the_parts_in_order() {
    let h = Header { sequence: 9, system_id: 8, component_id: 7 };
    assert_eq!(
        assemble(h, 33, &[0xaa, 0xbb], 0x1234),
        [0xfe, 2, 9, 8, 7, 33, 0xaa, 0xbb, 0x34, 0x12]
    );
    assert_eq!(assemble(h, 0, &[], 0xff00), [0xfe, 0, 9, 8, 7, 0, 0x00, 0xff]);
}

#[test]
fn a_frame_is_read_back() {
    let t = table();
    let frame = mavlink_wire::frame::write(&t, header(), &value(0xdead_beef, 0xffff, 0)).unwrap();
    assert_eq!(read(&t, &frame, 0), Some((header(), value(0xdead_beef, 0xffff, 0), frame.len())));
    assert_eq!(read(&t, &frame, frame.len()), None);
    assert_eq!(read(&t, &frame, frame.len() + 10), None);
    assert_eq!(read(&t, &[], 0), None);
}

#[test]
fn write_refuses_what_it_cannot_frame() {
    let t = table();
    assert_eq!(mavlink_wire::frame::write(&t, header(), &MessageValue { id: 8, values: vec![] }), None);
    assert_eq!(mavlink_wire::frame::write(&t, header(), &value(1, 0x1_0000, 3)), None);
    assert_eq!(mavlink_wire::frame::write(&t, header(), &MessageValue { id: 7, values: vec![] }), None);
    let long = CodecTable::compile(&abc(vec![field(
        MavType::Array(Box::new(MavType::UInt8), 256),
        "bulk",
    )]));
    let bulk = MessageValue { id: 7, values: vec![FieldValue::Array(vec![0; 256])] };
    assert_eq!(mavlink_wire::frame::write(&long, header(), &bulk), None);
    let full = CodecTable::compile(&abc(vec![field(
        MavType::Array(Box::new(MavType::UInt8), 255),
        "bulk",
    )]));
    let bulk = MessageValue { id: 7, values: vec![FieldValue::Array(vec![1; 255])] };
    let frame = mavlink_wire::frame::write(&full, header(), &bulk).unwrap();
    assert_eq!(frame.len(), 263);
    assert_eq!(frame[1], 255);
    assert_eq!(read(&full, &frame, 0), Some((header(), bulk, 263)));
}

#[test]
fn garbage_before_a_frame_is_skipped() {
    let t = table();
    let frame = mavlink_wire::frame::write(&t, header(), &value(1, 2, 3)).unwrap();
    for n in [0usize, 1, 5, 300] {
        let mut stream: Vec<u8> = (0..n).map(|i| (i % 0xfe) as u8).collect();
        stream.extend_from_slice(&frame);
        stream.extend_from_slice(&[0, 1, 2]);
        assert_eq!(read(&t, &stream, 0), Some((header(), value(1, 2, 3), n + frame.len())));
        assert_eq!(read(&t, &stream, n + frame.len()), None);
    }
}

#[test]
fn a_flipped_bit_discards_the_frame_and_the_next_is_read() {
    let t = table();
    let first = mavlink_wire::frame::write(&t, header(), &value(1, 2, 3)).unwrap();
    let second = mavlink_wire::frame::write(&t, Header { sequence: 6, ..header() }, &value(4, 5, 6)).unwrap();
    for byte in 2..first.len() {
        for bit in 0..8 {
            let mut stream = first.clone();
            stream[byte] ^= 1 << bit;
            stream.extend_from_slice(&second);
            assert_eq!(
                read(&t, &stream, 0),
                Some((Header { sequence: 6, ..header() }, value(4, 5, 6), stream.len())),
                "byte {} bit {}",
                byte,
                bit
            );
        }
    }
}

#[test]
fn a_wrong_checksum_is_seen_by_validate() {
    let t = table();
    let frame = mavlink_wire::frame::write(&t, header(), &value(1, 2, 3)).unwrap();
    let content = &frame[1..];
    let crc = frame_checksum(&content[..content.len() - 2], t.extra_crc(7));
    assert_eq!(validate(&t, content, crc), Some((header(), value(1, 2, 3))));
    assert_eq!(validate(&t, content, crc ^ 1), None);
    assert_eq!(validate(&t, content, crc.wrapping_add(0x100)), None);
    assert_eq!(check_frame(&t, content), Some((header(), value(1, 2, 3))));
    let fixed = [0u8, 1, 2, 3, 7, 9, 0, 0, 0, 8, 0, 7, 0x34, 0x12];
    assert_eq!(
        validate(&t, &fixed, 0x1234),
        Some((Header { sequence: 1, system_id: 2, component_id: 3 }, value(9, 8, 7)))
    );
    assert_eq!(validate(&t, &fixed, 0x3412), None);
    let short = [0u8, 1, 2, 3, 7, 9, 0, 0x34, 0x12];
    assert_eq!(validate(&t, &short, 0x1234), None);
    let unknown = [0u8, 1, 2, 3, 8, 9, 0, 0, 0, 8, 0, 7, 0x34, 0x12];
    assert_eq!(validate(&t, &unknown, 0x1234), None);
}

#[test]
fn an_unknown_message_is_skipped() {
    let other = CodecTable::compile(&MavProfile {
        includes: vec![],
        messages: vec![MavMessage {
            id: 99,
            name: "Other".to_string(),
            description: None,
            fields: vec![field(MavType::UInt16, "x")],
        }],
        enums: vec![],
    });
    let t = table();
    let unknown =
        mavlink_wire::frame::write(&other, header(), &MessageValue { id: 99, values: vec![FieldValue::Scalar(0xfefe)] })
            .unwrap();
    assert_eq!(read(&other, &unknown, 0).map(|r| r.2), Some(unknown.len()));
    assert_eq!(read(&t, &unknown, 0), None);
    let known = mavlink_wire::frame::write(&t, header(), &value(1, 2, 3)).unwrap();
    let mut stream = unknown.clone();
    stream.extend_from_slice(&known);
    stream.extend_from_slice(&unknown);
    stream.extend_from_slice(&known);
    let (h, m, next) = read(&t, &stream, 0).unwrap();
    assert_eq!((h, m, next), (header(), value(1, 2, 3), unknown.len() + known.len()));
    assert_eq!(read(&t, &stream, next), Some((header(), value(1, 2, 3), stream.len())));
}

#[test]
fn a_truncated_frame_ends_the_stream() {
    let t = table();
    let frame = mavlink_wire::frame::write(&t, header(), &value(1, 2, 3)).unwrap();
    for cut in 0..frame.len() {
        assert_eq!(read(&t, &frame[..cut], 0), None);
    }
}

#[test]
fn declaration_order_does_not_matter_between_peers() {
    let one = CodecTable::compile(&abc(vec![
        field(MavType::UInt8, "a"),
        field(MavType::UInt32, "b"),
        field(MavType::UInt16, "c"),
    ]));
    let two = CodecTable::compile(&abc(vec![
        field(MavType::UInt16, "c"),
        field(MavType::UInt8, "a"),
        field(MavType::UInt32, "b"),
    ]));
    assert_eq!(one, two);
    assert_eq!(one.codecs[0].layout, vec![MavType::UInt32, MavType::UInt16, MavType::UInt8]);
    let frame = mavlink_wire::frame::write(&one, header(), &value(1, 2, 3)).unwrap();
    assert_eq!(mavlink_wire::frame::write(&two, header(), &value(1, 2, 3)), Some(frame.clone()));
    assert_eq!(read(&two, &frame, 0), Some((header(), value(1, 2, 3), frame.len())));
}

#[test]
fn an_added_field_makes_peers_incompatible() {
    let old = table();
    let new = CodecTable::compile(&abc(vec![
        field(MavType::UInt8, "a"),
        field(MavType::UInt32, "b"),
        field(MavType::UInt16, "c"),
        field(MavType::UInt8, "d"),
    ]));
    assert_ne!(old.extra_crc(7), new.extra_crc(7));
    let frame = mavlink_wire::frame::write(&old, header(), &value(1, 2, 3)).unwrap();
    assert_eq!(read(&new, &frame, 0), None);
    let mut grown = value(1, 2, 3);
    grown.values.push(FieldValue::Scalar(4));
    let frame = mavlink_wire::frame::write(&new, header(), &grown).unwrap();
    assert_eq!(read(&old, &frame, 0), None);
    assert_eq!(read(&new, &frame, 0), Some((header(), grown, frame.len())));
}

#[test]
fn table_parse_and_serialize() {
    let t = table();
    assert_eq!(t.serialize(&value(1, 2, 3)), Some(vec![1, 0, 0, 0, 2, 0, 3]));
    assert_eq!(t.parse(7, &[1, 0, 0, 0, 2, 0, 3]), Some(value(1, 2, 3)));
    assert_eq!(t.parse(8, &[1, 0, 0, 0, 2, 0, 3]), None);
    assert_eq!(t.parse(7, &[1, 0, 0, 0, 2, 0]), None);
    assert_eq!(t.serialize(&MessageValue { id: 8, values: vec![] }), None);
}

#[test]
fn content_too_short_for_a_frame_is_refused() {
    let t = table();
    assert_eq!(validate(&t, &[], 0), None);
    assert_eq!(validate(&t, &[0, 1, 2, 3, 7, 0x34], 0x3400), None);
    assert_eq!(check_frame(&t, &[0, 1, 2, 3, 7, 0]), None);
}
