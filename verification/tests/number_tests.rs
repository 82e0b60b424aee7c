use userland::number::{parse_u16, parse_u32, parse_u64};

#[test]
fn parse_u16_values() {
    assert_eq!(parse_u16("0"), Some(0));
    assert_eq!(parse_u16("42"), Some(42));
    assert_eq!(parse_u16("65535"), Some(65535));
    assert_eq!(parse_u16("007"), Some(7));
}

#[test]
fn parse_u16_refusals() {
    assert_eq!(parse_u16("65536"), None);
    assert_eq!(parse_u16("99999999"), None);
    assert_eq!(parse_u16("12a"), None);
    assert_eq!(parse_u16("-1"), None);
    assert_eq!(parse_u16(" 1"), None);
}

#[test]
fn parse_u16_empty_is_zero() {
    assert_eq!(parse_u16(""), Some(0));
}

#[test]
fn parse_u32_values_and_refusals() {
    assert_eq!(parse_u32("1500"), Some(1500));
    assert_eq!(parse_u32("4294967295"), Some(u32::MAX));
    assert_eq!(parse_u32("4294967296"), None);
    assert_eq!(parse_u32(""), None);
    assert_eq!(parse_u32("1.5"), None);
}

#[test]
fn parse_u64_values_and_refusals() {
    assert_eq!(parse_u64("2000"), Some(2000));
    assert_eq!(parse_u64("18446744073709551615"), Some(u64::MAX));
    assert_eq!(parse_u64("18446744073709551616"), None);
    assert_eq!(parse_u64(""), None);
    assert_eq!(parse_u64("10ms"), None);
}

#[test]
fn parsers_agree_across_widths() {
    for s in ["0", "9", "300", "65535", "000123"] {
        let v = parse_u16(s).unwrap();
        assert_eq!(parse_u32(s), Some(v as u32));
        assert_eq!(parse_u64(s), Some(v as u64));
    }
}

#[test]
fn leading_zeros_do_not_change_value() {
    assert_eq!(parse_u64("0000000000000000000042"), parse_u64("42"));
}
