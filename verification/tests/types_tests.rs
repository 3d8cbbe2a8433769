use mavlink_wire::grammar::{identify_element, is_valid_parent, parse_type, MavXmlElement, SchemaError};
use mavlink_wire::types::MavType;
use std::cmp::Ordering;

fn array(elem: MavType, count: usize) -> MavType {
    MavType::Array(Box::new(elem), count)
}

#[test]
fn scalar_widths() {
    assert_eq!(MavType::UInt8.len(), 1);
    assert_eq!(MavType::Int8.len(), 1);
    assert_eq!(MavType::Char.len(), 1);
    assert_eq!(MavType::UInt8MavlinkVersion.len(), 1);
    assert_eq!(MavType::UInt16.len(), 2);
    assert_eq!(MavType::Int16.len(), 2);
    assert_eq!(MavType::UInt32.len(), 4);
    assert_eq!(MavType::Int32.len(), 4);
    assert_eq!(MavType::Float.len(), 4);
    assert_eq!(MavType::UInt64.len(), 8);
    assert_eq!(MavType::Int64.len(), 8);
    assert_eq!(MavType::Double.len(), 8);
}

#[test]
fn array_width_is_count_times_element() {
    assert_eq!(array(MavType::UInt16, 5).len(), 10);
    assert_eq!(array(MavType::Char, 16).len(), 16);
    assert_eq!(array(MavType::Double, 0).len(), 0);
}

#[test]
fn array_orders_by_element_width() {
    assert_eq!(array(MavType::UInt8, 200).order_len(), 1);
    assert_eq!(array(MavType::Float, 3).order_len(), 4);
    assert_eq!(MavType::UInt64.order_len(), 8);
}

#[test]
fn compare_puts_wider_first() {
    assert_eq!(MavType::UInt32.compare(&MavType::UInt8), Ordering::Less);
    assert_eq!(MavType::UInt8.compare(&MavType::UInt32), Ordering::Greater);
    assert_eq!(MavType::Int16.compare(&MavType::UInt16), Ordering::Equal);
    assert_eq!(array(MavType::UInt8, 100).compare(&MavType::UInt16), Ordering::Greater);
    assert_eq!(array(MavType::UInt8, 100).compare(&MavType::Char), Ordering::Equal);
}

#[test]
fn primitive_names() {
    assert_eq!(MavType::UInt8MavlinkVersion.primitive_type(), "uint8_t");
    assert_eq!(MavType::UInt8.primitive_type(), "uint8_t");
    assert_eq!(MavType::Int8.primitive_type(), "int8_t");
    assert_eq!(MavType::Char.primitive_type(), "char");
    assert_eq!(MavType::UInt16.primitive_type(), "uint16_t");
    assert_eq!(MavType::Int16.primitive_type(), "int16_t");
    assert_eq!(MavType::UInt32.primitive_type(), "uint32_t");
    assert_eq!(MavType::Int32.primitive_type(), "int32_t");
    assert_eq!(MavType::Float.primitive_type(), "float");
    assert_eq!(MavType::UInt64.primitive_type(), "uint64_t");
    assert_eq!(MavType::Int64.primitive_type(), "int64_t");
    assert_eq!(MavType::Double.primitive_type(), "double");
    assert_eq!(array(MavType::Int16, 3).primitive_type(), "int16_t");
}

#[test]
fn host_type_names() {
    assert_eq!(MavType::UInt8.rust_type(), "u8");
    assert_eq!(MavType::UInt8MavlinkVersion.rust_type(), "u8");
    assert_eq!(MavType::Char.rust_type(), "u8");
    assert_eq!(MavType::Int8.rust_type(), "i8");
    assert_eq!(MavType::UInt16.rust_type(), "u16");
    assert_eq!(MavType::Int16.rust_type(), "i16");
    assert_eq!(MavType::UInt32.rust_type(), "u32");
    assert_eq!(MavType::Int32.rust_type(), "i32");
    assert_eq!(MavType::Float.rust_type(), "f32");
    assert_eq!(MavType::Double.rust_type(), "f64");
    assert_eq!(MavType::UInt64.rust_type(), "u64");
    assert_eq!(MavType::Int64.rust_type(), "i64");
    assert_eq!(array(MavType::UInt8, 16).rust_type(), "Vec<u8> /* 16 */");
    assert_eq!(array(MavType::Int64, 0).rust_type(), "Vec<i64> /* 0 */");
}

#[test]
fn host_types_have_the_wire_width() {
    let all = [
        MavType::UInt8MavlinkVersion,
        MavType::UInt8,
        MavType::UInt16,
        MavType::UInt32,
        MavType::UInt64,
        MavType::Int8,
        MavType::Int16,
        MavType::Int32,
        MavType::Int64,
        MavType::Char,
        MavType::Float,
        MavType::Double,
        array(MavType::Int16, 3),
    ];
    for ty in all {
        assert_eq!(ty.rust_type(), ty.rust_serde_type());
        if !ty.is_array() {
            let bits: usize = ty.rust_type()[1..].parse().unwrap();
            assert_eq!(bits, 8 * ty.len());
        }
    }
}

#[test]
fn exact_type_names() {
    assert_eq!(MavType::UInt8.rust_serde_type(), "u8");
    assert_eq!(MavType::UInt8MavlinkVersion.rust_serde_type(), "u8");
    assert_eq!(MavType::Char.rust_serde_type(), "u8");
    assert_eq!(MavType::Int8.rust_serde_type(), "i8");
    assert_eq!(MavType::UInt16.rust_serde_type(), "u16");
    assert_eq!(MavType::Int32.rust_serde_type(), "i32");
    assert_eq!(MavType::Float.rust_serde_type(), "f32");
    assert_eq!(array(MavType::UInt16, 1234).rust_serde_type(), "Vec<u16> /* 1234 */");
}

#[test]
fn proto_type_names() {
    assert_eq!(MavType::UInt8.proto_type(), "uint32");
    assert_eq!(MavType::Char.proto_type(), "uint32");
    assert_eq!(MavType::Int8.proto_type(), "int32");
    assert_eq!(MavType::Float.proto_type(), "float");
    assert_eq!(MavType::UInt64.proto_type(), "uint64");
    assert_eq!(MavType::Int64.proto_type(), "int64");
    assert_eq!(MavType::Double.proto_type(), "double");
    assert_eq!(array(MavType::Int16, 4).proto_type(), "int32");
}

#[test]
fn clone_keeps_the_type() {
    let ty = array(MavType::UInt32, 7);
    assert_eq!(ty.clone(), ty);
    assert_eq!(ty.duplicate(), ty);
    assert!(ty.is_array());
    assert!(!MavType::UInt32.is_array());
}

#[test]
fn parse_type_reads_scalars() {
    assert_eq!(parse_type("uint8_t_mavlink_version"), Ok(MavType::UInt8MavlinkVersion));
    assert_eq!(parse_type("uint8_t"), Ok(MavType::UInt8));
    assert_eq!(parse_type("uint16_t"), Ok(MavType::UInt16));
    assert_eq!(parse_type("uint32_t"), Ok(MavType::UInt32));
    assert_eq!(parse_type("uint64_t"), Ok(MavType::UInt64));
    assert_eq!(parse_type("int8_t"), Ok(MavType::Int8));
    assert_eq!(parse_type("int16_t"), Ok(MavType::Int16));
    assert_eq!(parse_type("int32_t"), Ok(MavType::Int32));
    assert_eq!(parse_type("int64_t"), Ok(MavType::Int64));
    assert_eq!(parse_type("char"), Ok(MavType::Char));
    assert_eq!(parse_type("float"), Ok(MavType::Float));
    assert_eq!(parse_type("double"), Ok(MavType::Double));
    assert_eq!(parse_type("Double"), Ok(MavType::Double));
    assert_eq!(parse_type("double[2]"), Ok(array(MavType::Double, 2)));
}

#[test]
fn parse_type_reads_arrays() {
    assert_eq!(parse_type("char[16]"), Ok(array(MavType::Char, 16)));
    assert_eq!(parse_type("uint16_t[4]"), Ok(array(MavType::UInt16, 4)));
    assert_eq!(parse_type("float[0]"), Ok(array(MavType::Float, 0)));
    assert_eq!(parse_type("uint8_t[+3]"), Ok(array(MavType::UInt8, 3)));
    assert_eq!(parse_type("uint8_t[007]"), Ok(array(MavType::UInt8, 7)));
}

#[test]
fn parse_type_rejects_unknown_names() {
    assert_eq!(parse_type(""), Err(SchemaError::BadAttribute));
    assert_eq!(parse_type("uint128_t"), Err(SchemaError::BadAttribute));
    assert_eq!(parse_type("DOUBLE"), Err(SchemaError::BadAttribute));
    assert_eq!(parse_type("Float"), Err(SchemaError::BadAttribute));
    assert_eq!(parse_type("bogus[3]"), Err(SchemaError::BadAttribute));
    assert_eq!(parse_type("uint8_t[]"), Err(SchemaError::BadAttribute));
    assert_eq!(parse_type("uint8_t[x]"), Err(SchemaError::BadAttribute));
    assert_eq!(parse_type("uint8_t[-1]"), Err(SchemaError::BadAttribute));
    assert_eq!(parse_type("uint8_t]"), Err(SchemaError::BadAttribute));
    assert_eq!(parse_type("uint8_t[3"), Err(SchemaError::BadAttribute));
    assert_eq!(
        parse_type("uint8_t[99999999999999999999999999]"),
        Err(SchemaError::BadAttribute)
    );
}

#[test]
fn every_scalar_name_is_read_back() {
    let scalars = [
        MavType::UInt8,
        MavType::UInt16,
        MavType::UInt32,
        MavType::UInt64,
        MavType::Int8,
        MavType::Int16,
        MavType::Int32,
        MavType::Int64,
        MavType::Char,
        MavType::Float,
        MavType::Double,
    ];
    for ty in scalars {
        assert_eq!(parse_type(&ty.primitive_type()), Ok(ty));
    }
}

#[test]
fn parse_type_rejects_nested_arrays() {
    assert_eq!(parse_type("uint8_t[2][3]"), Err(SchemaError::NestedArray));
    assert_eq!(parse_type("char[1][1][1]"), Err(SchemaError::NestedArray));
}

#[test]
fn identify_element_knows_the_vocabulary() {
    assert_eq!(identify_element("version"), Some(MavXmlElement::Version));
    assert_eq!(identify_element("mavlink"), Some(MavXmlElement::Mavlink));
    assert_eq!(identify_element("include"), Some(MavXmlElement::Include));
    assert_eq!(identify_element("enums"), Some(MavXmlElement::Enums));
    assert_eq!(identify_element("enum"), Some(MavXmlElement::Enum));
    assert_eq!(identify_element("entry"), Some(MavXmlElement::Entry));
    assert_eq!(identify_element("description"), Some(MavXmlElement::Description));
    assert_eq!(identify_element("param"), Some(MavXmlElement::Param));
    assert_eq!(identify_element("messages"), Some(MavXmlElement::Messages));
    assert_eq!(identify_element("message"), Some(MavXmlElement::Message));
    assert_eq!(identify_element("field"), Some(MavXmlElement::Field));
    assert_eq!(identify_element("Field"), None);
    assert_eq!(identify_element("wip"), None);
    assert_eq!(identify_element(""), None);
}

fn allowed(p: Option<MavXmlElement>, s: MavXmlElement) -> bool {
    match (p, s) {
        (None, MavXmlElement::Mavlink) => true,
        (Some(MavXmlElement::Mavlink), MavXmlElement::Version) => true,
        (Some(MavXmlElement::Mavlink), MavXmlElement::Include) => true,
        (Some(MavXmlElement::Mavlink), MavXmlElement::Enums) => true,
        (Some(MavXmlElement::Mavlink), MavXmlElement::Messages) => true,
        (Some(MavXmlElement::Enums), MavXmlElement::Enum) => true,
        (Some(MavXmlElement::Enum), MavXmlElement::Entry) => true,
        (Some(MavXmlElement::Enum), MavXmlElement::Description) => true,
        (Some(MavXmlElement::Entry), MavXmlElement::Param) => true,
        (Some(MavXmlElement::Entry), MavXmlElement::Description) => true,
        (Some(MavXmlElement::Messages), MavXmlElement::Message) => true,
        (Some(MavXmlElement::Message), MavXmlElement::Field) => true,
        (Some(MavXmlElement::Message), MavXmlElement::Description) => true,
        _ => false,
    }
}

#[test]
fn valid_parent_follows_the_grammar() {
    let kinds = [
        MavXmlElement::Version,
        MavXmlElement::Mavlink,
        MavXmlElement::Include,
        MavXmlElement::Enums,
        MavXmlElement::Enum,
        MavXmlElement::Entry,
        MavXmlElement::Description,
        MavXmlElement::Param,
        MavXmlElement::Messages,
        MavXmlElement::Message,
        MavXmlElement::Field,
    ];
    for s in kinds {
        assert_eq!(is_valid_parent(None, s), allowed(None, s));
        for p in kinds {
            assert_eq!(is_valid_parent(Some(p), s), allowed(Some(p), s));
        }
    }
}
