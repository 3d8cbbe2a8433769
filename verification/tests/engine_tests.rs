use mavlink_wire::codec::FieldValue;
use mavlink_wire::engine::{advance, wanted, Phase};
use mavlink_wire::frame::{read, Header};
use mavlink_wire::model::MavField;
use mavlink_wire::schema::{MavMessage, MavProfile};
use mavlink_wire::table::{CodecTable, MessageValue};
use mavlink_wire::types::MavType;

fn table() -> CodecTable {
    let field = |mavtype: MavType, name: &str| MavField {
        mavtype,
        name: name.to_string(),
        description: None,
        enumtype: None,
    };
    CodecTable::compile(&MavProfile {
        includes: vec![],
        messages: vec![MavMessage {
            id: 7,
            name: "Abc".to_string(),
            description: None,
            fields: vec![field(MavType::UInt16, "x"), field(MavType::Array(Box::new(MavType::UInt8), 3), "y")],
        }],
        enums: vec![],
    })
}

fn value(x: u64) -> MessageValue {
    MessageValue { id: 7, values: vec![FieldValue::Scalar(x), FieldValue::Array(vec![1, 2, 0xfe])] }
}

fn header(sequence: u8) -> Header {
    Header { sequence, system_id: 0xfe, component_id: 3 }
}

fn drive(table: &CodecTable, stream: &[u8], start: usize) -> Option<(Header, MessageValue, usize)> {
    let mut phase = Phase::SeekingSync;
    let mut pos = start;
    loop {
        let n = wanted(phase);
        if pos > stream.len() || stream.len() - pos < n {
            return None;
        }
        let (next, done) = advance(table, phase, &stream[pos..pos + n]);
        pos += n;
        if let Some((h, m)) = done {
            return Some((h, m, pos));
        }
        phase = next;
    }
}

#[test]
fn the_engine_wants_one_frame_at_a_time() {
    assert_eq!(wanted(Phase::SeekingSync), 1);
    assert_eq!(wanted(Phase::HeaderRead), 1);
    assert_eq!(wanted(Phase::PayloadRead(0)), 6);
    assert_eq!(wanted(Phase::PayloadRead(255)), 261);
}

#[test]
fn the_engine_walks_through_a_frame() {
    let t = table();
    let frame = mavlink_wire::frame::write(&t, header(1), &value(9)).unwrap();
    assert_eq!(advance(&t, Phase::SeekingSync, &[0x00]), (Phase::SeekingSync, None));
    assert_eq!(advance(&t, Phase::SeekingSync, &frame[0..1]), (Phase::HeaderRead, None));
    assert_eq!(advance(&t, Phase::HeaderRead, &frame[1..2]), (Phase::PayloadRead(5), None));
    assert_eq!(
        advance(&t, Phase::PayloadRead(5), &frame[2..]),
        (Phase::SeekingSync, Some((header(1), value(9))))
    );
    let mut bad = frame.clone();
    bad[7] ^= 0x10;
    assert_eq!(advance(&t, Phase::PayloadRead(5), &bad[2..]), (Phase::SeekingSync, None));
}

#[test]
fn the_engine_agrees_with_the_search() {
    let t = table();
    let mut stream = vec![1, 2, 0xfe, 3, 0xfe, 0xfe, 0, 0, 0, 0, 0, 0, 0];
    stream.extend(mavlink_wire::frame::write(&t, header(1), &value(0x1234)).unwrap());
    stream.extend([9, 9, 9]);
    let mut broken = mavlink_wire::frame::write(&t, header(2), &value(5)).unwrap();
    broken[8] ^= 1;
    stream.extend(broken);
    stream.extend(mavlink_wire::frame::write(&t, header(3), &value(0xfefe)).unwrap());
    stream.extend([0xfe, 200, 1]);
    let mut found = 0;
    for start in 0..stream.len() + 2 {
        let by_search = read(&t, &stream, start);
        assert_eq!(drive(&t, &stream, start), by_search);
        if by_search.is_some() {
            found += 1;
        }
    }
    assert!(found > 20);
    let (h, m, next) = read(&t, &stream, 0).unwrap();
    assert_eq!((h, m), (header(1), value(0x1234)));
    let (h, m, _) = read(&t, &stream, next).unwrap();
    assert_eq!((h, m), (header(3), value(0xfefe)));
}
