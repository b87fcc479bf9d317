use sftool_lib::number::{parse_literal, str_to_u32};

#[test]
fn hex_literal() {
    assert_eq!(str_to_u32("0x12000000"), Some(0x1200_0000));
    assert_eq!(str_to_u32("0xffffffff"), Some(0xffff_ffff));
    assert_eq!(str_to_u32("0xAbC"), Some(0xabc));
}

#[test]
fn binary_octal_decimal_literals() {
    assert_eq!(str_to_u32("0b101"), Some(5));
    assert_eq!(str_to_u32("0o17"), Some(15));
    assert_eq!(str_to_u32("42"), Some(42));
    assert_eq!(str_to_u32("+7"), Some(7));
    assert_eq!(str_to_u32("0"), Some(0));
}

#[test]
fn rejected_literals() {
    assert_eq!(str_to_u32(""), None);
    assert_eq!(str_to_u32("0x"), None);
    assert_eq!(str_to_u32("-1"), None);
    assert_eq!(str_to_u32("+"), None);
    assert_eq!(str_to_u32("0xZZ"), None);
    assert_eq!(str_to_u32("0b102"), None);
    assert_eq!(str_to_u32("4294967296"), None);
    assert_eq!(str_to_u32("0x100000000"), None);
    assert_eq!(str_to_u32("12ab"), None);
}

#[test]
fn literal_at_the_limit() {
    assert_eq!(str_to_u32("4294967295"), Some(u32::MAX));
    assert_eq!(parse_literal(b"0o37777777777"), Some(u32::MAX));
    assert_eq!(parse_literal(b"0o40000000000"), None);
}
