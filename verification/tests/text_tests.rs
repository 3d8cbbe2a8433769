use mavlink_wire::text::{
    camel_case, decimal_text, has_whole_parts, parse_signed, parse_unsigned, same_text,
};

#[test]
fn camel_case_capitalises_each_part() {
    assert_eq!(camel_case("HEARTBEAT"), Some("Heartbeat".to_string()));
    assert_eq!(camel_case("SYS_STATUS"), Some("SysStatus".to_string()));
    assert_eq!(camel_case("mav_cmd_ack"), Some("MavCmdAck".to_string()));
    assert_eq!(camel_case("GPS2_RAW"), Some("Gps2Raw".to_string()));
    assert_eq!(camel_case("a"), Some("A".to_string()));
    assert_eq!(camel_case("X_9y"), Some("X9y".to_string()));
}

#[test]
fn camel_case_refuses_empty_parts() {
    assert_eq!(camel_case(""), None);
    assert_eq!(camel_case("_"), None);
    assert_eq!(camel_case("_A"), None);
    assert_eq!(camel_case("A_"), None);
    assert_eq!(camel_case("A__B"), None);
}

#[test]
fn camel_case_refuses_text_outside_ascii() {
    assert_eq!(camel_case("STRASSE_\u{df}"), None);
    assert_eq!(camel_case("\u{c9}TAT"), None);
}

#[test]
fn unsigned_numbers() {
    assert_eq!(parse_unsigned("0", 255), Some(0));
    assert_eq!(parse_unsigned("255", 255), Some(255));
    assert_eq!(parse_unsigned("256", 255), None);
    assert_eq!(parse_unsigned("+12", 255), Some(12));
    assert_eq!(parse_unsigned("0012", 255), Some(12));
    assert_eq!(parse_unsigned("", 255), None);
    assert_eq!(parse_unsigned("+", 255), None);
    assert_eq!(parse_unsigned("-1", 255), None);
    assert_eq!(parse_unsigned("1a", 255), None);
    assert_eq!(parse_unsigned(" 1", 255), None);
    assert_eq!(parse_unsigned("18446744073709551615", u64::MAX), Some(u64::MAX));
    assert_eq!(parse_unsigned("18446744073709551616", u64::MAX), None);
}

#[test]
fn signed_numbers() {
    assert_eq!(parse_signed("0"), Some(0));
    assert_eq!(parse_signed("-0"), Some(0));
    assert_eq!(parse_signed("17"), Some(17));
    assert_eq!(parse_signed("+17"), Some(17));
    assert_eq!(parse_signed("-17"), Some(-17));
    assert_eq!(parse_signed("2147483647"), Some(i32::MAX));
    assert_eq!(parse_signed("2147483648"), None);
    assert_eq!(parse_signed("-2147483648"), Some(i32::MIN));
    assert_eq!(parse_signed("-2147483649"), None);
    assert_eq!(parse_signed("-"), None);
    assert_eq!(parse_signed("+-1"), None);
    assert_eq!(parse_signed("0x10"), None);
    assert_eq!(parse_signed(""), None);
}

#[test]
fn numbers_agree_with_the_standard_parser() {
    let samples = ["0", "7", "+7", "-7", "255", "256", "00255", "", "+", "-", "1_0", "12 ", "\u{663}"];
    for s in samples {
        assert_eq!(parse_unsigned(s, 255).map(|n| n as u8), s.parse::<u8>().ok());
        assert_eq!(parse_signed(s), s.parse::<i32>().ok());
    }
}

#[test]
fn decimal_text_spells_numbers() {
    assert_eq!(decimal_text(0), "0");
    assert_eq!(decimal_text(9), "9");
    assert_eq!(decimal_text(10), "10");
    assert_eq!(decimal_text(1234567890), "1234567890");
    assert_eq!(decimal_text(usize::MAX), usize::MAX.to_string());
}

#[test]
fn same_text_compares_contents() {
    assert!(same_text("field", "field"));
    assert!(!same_text("field", "fields"));
    assert!(!same_text("", "x"));
    assert!(same_text("", ""));
}

#[test]
fn names_with_and_without_empty_parts() {
    assert!(has_whole_parts("HEARTBEAT"));
    assert!(has_whole_parts("a_b_c"));
    assert!(has_whole_parts("x"));
    assert!(has_whole_parts("\u{c9}TAT_\u{df}"));
    assert!(!has_whole_parts(""));
    assert!(!has_whole_parts("_"));
    assert!(!has_whole_parts("_a"));
    assert!(!has_whole_parts("a_"));
    assert!(!has_whole_parts("a__b"));
    for s in ["A", "A_B", "", "_", "A_", "_A", "A__B", "A_B_", "AB_C_D"] {
        assert_eq!(has_whole_parts(s), s.split('_').all(|part| !part.is_empty()));
        assert_eq!(has_whole_parts(s), camel_case(s).is_some());
    }
}
