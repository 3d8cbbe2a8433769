use mavlink_wire::checksum::{extra_crc, fold_crc, signature_bytes};
use mavlink_wire::model::{sort_fields, MavField};
use mavlink_wire::schema::{MavEnum, MavEnumEntry, MavMessage, MavProfile};
use mavlink_wire::table::{compile_message, CodecTable};
use mavlink_wire::types::MavType;

fn field(mavtype: MavType, name: &str) -> MavField {
    MavField { mavtype, name: name.to_string(), description: None, enumtype: None }
}

fn message(id: u8, name: &str, fields: Vec<MavField>) -> MavMessage {
    MavMessage { id, name: name.to_string(), description: None, fields }
}

fn names(fields: &[MavField]) -> Vec<String> {
    fields.iter().map(|f| f.name.clone()).collect()
}

fn heartbeat() -> MavMessage {
    message(
        0,
        "HEARTBEAT",
        vec![
            field(MavType::UInt8, "type"),
            field(MavType::UInt8, "autopilot"),
            field(MavType::UInt8, "base_mode"),
            field(MavType::UInt32, "custom_mode"),
            field(MavType::UInt8, "system_status"),
            field(MavType::UInt8MavlinkVersion, "mavlink_version"),
        ],
    )
}

fn param_value() -> MavMessage {
    message(
        22,
        "PARAM_VALUE",
        vec![
            field(MavType::Array(Box::new(MavType::Char), 16), "param_id"),
            field(MavType::Float, "param_value"),
            field(MavType::UInt8, "param_type"),
            field(MavType::UInt16, "param_count"),
            field(MavType::UInt16, "param_index"),
        ],
    )
}

#[test]
fn defaults_are_blank() {
    let f = MavField::default();
    assert_eq!(f, field(MavType::UInt8, ""));
    let m = MavMessage::default();
    assert_eq!(m, message(0, "", vec![]));
    let e = MavEnum::default();
    assert_eq!(e, MavEnum { name: String::new(), description: None, entries: vec![] });
    let entry = MavEnumEntry::default();
    assert_eq!(
        entry,
        MavEnumEntry { value: 0, name: String::new(), description: None, params: None }
    );
    let p = MavProfile::new();
    assert!(p.includes.is_empty() && p.messages.is_empty() && p.enums.is_empty());
}

#[test]
fn canonical_order_is_descending_and_stable() {
    let sorted = sort_fields(&[
        field(MavType::UInt8, "a"),
        field(MavType::UInt32, "b"),
        field(MavType::UInt16, "c"),
    ]
    .to_vec());
    assert_eq!(names(&sorted), ["b", "c", "a"]);

    let sorted = sort_fields(&vec![
        field(MavType::UInt8, "a1"),
        field(MavType::UInt64, "d1"),
        field(MavType::Char, "a2"),
        field(MavType::Int16, "b1"),
        field(MavType::Array(Box::new(MavType::Int8), 40), "a3"),
        field(MavType::Double, "d2"),
        field(MavType::Float, "c1"),
        field(MavType::UInt16, "b2"),
        field(MavType::Array(Box::new(MavType::UInt32), 2), "c2"),
        field(MavType::Int64, "d3"),
    ]);
    assert_eq!(names(&sorted), ["d1", "d2", "d3", "c1", "c2", "b1", "b2", "a1", "a2", "a3"]);
}

#[test]
fn canonical_order_keeps_field_contents() {
    let mut f = field(MavType::UInt16, "c");
    f.description = Some("third".to_string());
    f.enumtype = Some("Kind".to_string());
    let sorted = sort_fields(&vec![field(MavType::UInt8, "a"), f.clone()]);
    assert_eq!(sorted, vec![f, field(MavType::UInt8, "a")]);
}

#[test]
fn sorting_twice_changes_nothing() {
    let once = sort_fields(&param_value().fields);
    let twice = sort_fields(&once);
    assert_eq!(once, twice);
    assert_eq!(
        names(&once),
        ["param_value", "param_count", "param_index", "param_id", "param_type"]
    );
    assert_eq!(sort_fields(&vec![]), vec![]);
}

#[test]
fn signature_of_a_message() {
    let m = message(
        9,
        "M",
        vec![field(MavType::Array(Box::new(MavType::UInt8), 3), "x"), field(MavType::UInt16, "y")],
    );
    assert_eq!(signature_bytes(&m), b"M uint16_t y uint8_t x \x03".to_vec());
    let wide = message(9, "M", vec![field(MavType::Array(Box::new(MavType::UInt8), 259), "x")]);
    assert_eq!(signature_bytes(&wide), b"M uint8_t x \x03".to_vec());
    assert_eq!(signature_bytes(&message(1, "EMPTY", vec![])), b"EMPTY ".to_vec());
}

#[test]
fn fold_crc_mixes_both_bytes() {
    assert_eq!(fold_crc(0x0000), 0x00);
    assert_eq!(fold_crc(0x1234), 0x26);
    assert_eq!(fold_crc(0xff00), 0xff);
    assert_eq!(fold_crc(0xabab), 0x00);
}

#[test]
fn extra_crc_of_well_known_messages() {
    assert_eq!(extra_crc(&heartbeat()), 50);
    assert_eq!(extra_crc(&param_value()), 220);
}

#[test]
fn extra_crc_ignores_declaration_order() {
    let declared = heartbeat();
    let mut shuffled = heartbeat();
    shuffled.fields.swap(0, 3);
    shuffled.fields.swap(1, 3);
    shuffled.fields.swap(2, 3);
    assert_eq!(names(&shuffled.fields)[0], "custom_mode");
    assert_eq!(sort_fields(&declared.fields), sort_fields(&shuffled.fields));
    assert_eq!(extra_crc(&declared), extra_crc(&shuffled));

    let mut sorted = heartbeat();
    sorted.fields = sort_fields(&declared.fields);
    assert_eq!(extra_crc(&sorted), extra_crc(&declared));
}

#[test]
fn extra_crc_changes_with_an_added_field() {
    let base = heartbeat();
    let mut grown = heartbeat();
    grown.fields.push(field(MavType::UInt8, "extra"));
    assert_ne!(extra_crc(&base), extra_crc(&grown));
    let mut renamed = heartbeat();
    renamed.name = "HEARTBEAT2".to_string();
    assert_ne!(extra_crc(&base), extra_crc(&renamed));
}

#[test]
fn compile_message_gives_layout_and_seed() {
    let codec = compile_message(&param_value());
    assert_eq!(codec.id, 22);
    assert_eq!(codec.seed, 220);
    assert_eq!(
        codec.layout,
        vec![
            MavType::Float,
            MavType::UInt16,
            MavType::UInt16,
            MavType::Array(Box::new(MavType::Char), 16),
            MavType::UInt8,
        ]
    );
}

#[test]
fn table_finds_codecs_by_id() {
    let profile =
        MavProfile { includes: vec![], messages: vec![heartbeat(), param_value()], enums: vec![] };
    let table = CodecTable::compile(&profile);
    assert_eq!(table.codecs.len(), 2);
    assert_eq!(table.lookup(0), Some(0));
    assert_eq!(table.lookup(22), Some(1));
    assert_eq!(table.lookup(23), None);
    assert_eq!(table.extra_crc(0), 50);
    assert_eq!(table.extra_crc(22), 220);
    assert_eq!(table.extra_crc(200), 0);
    assert_eq!(profile.find_message(22), Some(1));
    assert_eq!(profile.find_message(1), None);
}

#[test]
fn enum_values_and_numbering() {
    let entry = |name: &str, value: i32| MavEnumEntry {
        value,
        name: name.to_string(),
        description: None,
        params: Some(vec!["p".to_string()]),
    };
    let mut e = MavEnum {
        name: "E".to_string(),
        description: Some("d".to_string()),
        entries: vec![entry("X", 0), entry("Y", 0), entry("Z", 0)],
    };
    assert!(!e.has_enum_values());
    assert_eq!(e.duplicate(), e);
    e.number_entries();
    assert_eq!(e.entries, vec![entry("X", 0), entry("Y", 1), entry("Z", 2)]);
    assert_eq!(e.name, "E");
    assert_eq!(e.description, Some("d".to_string()));
    assert!(e.has_enum_values());
    let mixed = MavEnum {
        name: "E".to_string(),
        description: None,
        entries: vec![entry("X", -1), entry("Y", 1)],
    };
    assert!(mixed.has_enum_values());
    assert!(!MavEnum::default().has_enum_values());
}

#[test]
fn nested_arrays_are_not_well_formed() {
    let flat = MavType::Array(Box::new(MavType::UInt8), 4);
    let nested = MavType::Array(Box::new(flat.clone()), 2);
    assert!(MavType::Double.is_well_formed());
    assert!(flat.is_well_formed());
    assert!(!nested.is_well_formed());
    assert!(heartbeat().is_well_formed());
    let bad = message(1, "BAD", vec![field(MavType::UInt8, "a"), field(nested, "b")]);
    assert!(!bad.is_well_formed());
    let good = MavProfile { includes: vec![], messages: vec![heartbeat()], enums: vec![] };
    assert!(good.has_well_formed_types());
    let mixed = MavProfile { includes: vec![], messages: vec![heartbeat(), bad], enums: vec![] };
    assert!(!mixed.has_well_formed_types());
    assert!(MavProfile::new().has_well_formed_types());
}

#[test]
fn proto_projection_of_fields() {
    let plain = field(MavType::Int16, "x");
    let list = field(MavType::Array(Box::new(MavType::Float), 3), "y");
    let mut tagged = field(MavType::Array(Box::new(MavType::UInt8), 3), "z");
    tagged.enumtype = Some("Kind".to_string());
    assert_eq!(plain.proto_kind(), "int32");
    assert!(!plain.is_proto_repeated());
    assert_eq!(list.proto_kind(), "float");
    assert!(list.is_proto_repeated());
    assert_eq!(tagged.proto_kind(), "uint32");
    assert!(!tagged.is_proto_repeated());
    assert_eq!(plain.duplicate(), plain);
}
