use resource_pool::error::ResourcePoolError;
use resource_pool::value::{
    check_canonical, decode, decode_integer, decode_ipv4, encode, encode_integer, encode_ipv4,
    natural_less, parse_decimal, text_less, TypedValue, ValueType,
};

#[test]
fn integers_are_written_in_decimal() {
    assert_eq!(encode_integer(0), "0");
    assert_eq!(encode_integer(7), "7");
    assert_eq!(encode_integer(-7), "-7");
    assert_eq!(encode_integer(1_000_000), "1000000");
    assert_eq!(encode_integer(i64::MAX), "9223372036854775807");
    assert_eq!(encode_integer(i64::MIN), "-9223372036854775808");
}

#[test]
fn integers_are_read_from_their_canonical_text_only() {
    assert_eq!(decode_integer("0"), Some(0));
    assert_eq!(decode_integer("42"), Some(42));
    assert_eq!(decode_integer("-42"), Some(-42));
    assert_eq!(decode_integer("9223372036854775807"), Some(i64::MAX));
    assert_eq!(decode_integer("-9223372036854775808"), Some(i64::MIN));
    for bad in [
        "", "-", "+1", "01", "-0", "-01", "00", "1 ", " 1", "1a", "0x10", "1.0",
        "9223372036854775808", "-9223372036854775809", "99999999999999999999999", "١٢",
        "1\u{e9}",
    ] {
        assert_eq!(decode_integer(bad), None, "{bad}");
    }
}

#[test]
fn addresses_are_written_in_dotted_decimal() {
    assert_eq!(encode_ipv4(0), "0.0.0.0");
    assert_eq!(encode_ipv4(0xac00_0100), "172.0.1.0");
    assert_eq!(encode_ipv4(0x0102_0304), "1.2.3.4");
    assert_eq!(encode_ipv4(u32::MAX), "255.255.255.255");
}

#[test]
fn addresses_are_read_from_their_canonical_text_only() {
    assert_eq!(decode_ipv4("0.0.0.0"), Some(0));
    assert_eq!(decode_ipv4("172.0.1.255"), Some(0xac00_01ff));
    assert_eq!(decode_ipv4("255.255.255.255"), Some(u32::MAX));
    assert_eq!(decode_ipv4("10.20.30.40"), Some(0x0a14_1e28));
    for bad in [
        "", "1.2.3", "1.2.3.4.5", "1.2.3.", ".1.2.3", "1..2.3", "256.1.1.1", "1.1.1.256",
        "01.1.1.1", "1.1.1.00", "1.1.1.1 ", "a.b.c.d", "1,2,3,4", "1.2.3.-4", "1.2.3.4/8",
        "１.2.3.4", "...", "1.2.3.4294967296",
    ] {
        assert_eq!(decode_ipv4(bad), None, "{bad}");
    }
}

#[test]
fn a_value_that_is_written_and_read_is_the_same() {
    for v in [0i64, 1, -1, 9, 10, 99, 100, 12345, -98765, i64::MAX, i64::MIN, i64::MIN + 1] {
        let typed = TypedValue::Integer(v);
        assert_eq!(decode(&encode(&typed), ValueType::Integer), Ok(typed));
    }
    for a in [0u32, 1, 255, 256, 65535, 65536, 0x7f00_0001, 0xc0a8_0001, u32::MAX - 1, u32::MAX] {
        let typed = TypedValue::Ipv4(a);
        assert_eq!(decode(&encode(&typed), ValueType::Ipv4), Ok(typed));
    }
    let typed = TypedValue::String("tok\u{e9}n".to_string());
    assert_eq!(decode(&encode(&typed), ValueType::String), Ok(typed));
}

#[test]
fn a_canonical_text_that_is_read_and_written_is_the_same() {
    for (text, vt) in [
        ("0", ValueType::Integer),
        ("-17", ValueType::Integer),
        ("4096", ValueType::Integer),
        ("172.0.1.254", ValueType::Ipv4),
        ("8.8.8.8", ValueType::Ipv4),
        ("any token", ValueType::String),
        ("007", ValueType::String),
    ] {
        assert!(check_canonical(text, vt));
        assert_eq!(encode(&decode(text, vt).unwrap()), text);
    }
}

#[test]
fn a_text_of_another_type_is_invalid() {
    assert_eq!(decode("1.2.3.4", ValueType::Integer), Err(ResourcePoolError::InvalidValue));
    assert_eq!(decode("12", ValueType::Ipv4), Err(ResourcePoolError::InvalidValue));
    assert_eq!(decode("", ValueType::String), Err(ResourcePoolError::InvalidValue));
    assert_eq!(decode("twelve", ValueType::Integer), Err(ResourcePoolError::InvalidValue));
    assert!(!check_canonical("012", ValueType::Integer));
    assert!(!check_canonical("1.2.3.04", ValueType::Ipv4));
    assert!(!check_canonical("", ValueType::String));
    assert_eq!(decode("12", ValueType::Integer), Ok(TypedValue::Integer(12)));
    assert_eq!(decode("12", ValueType::String), Ok(TypedValue::String("12".to_string())));
    assert_eq!(decode("0.0.1.0", ValueType::Ipv4), Ok(TypedValue::Ipv4(256)));
}

#[test]
fn numbers_are_ordered_as_numbers_and_tokens_as_in_a_dictionary() {
    assert!(natural_less(ValueType::Integer, "9", "10"));
    assert!(!natural_less(ValueType::Integer, "10", "9"));
    assert!(natural_less(ValueType::Integer, "-10", "-9"));
    assert!(natural_less(ValueType::Integer, "-1", "0"));
    assert!(!natural_less(ValueType::Integer, "5", "5"));
    assert!(natural_less(ValueType::Ipv4, "9.0.0.0", "10.0.0.0"));
    assert!(natural_less(ValueType::Ipv4, "1.2.3.4", "1.2.3.10"));
    assert!(!natural_less(ValueType::Ipv4, "1.2.3.10", "1.2.3.4"));
    assert!(natural_less(ValueType::String, "10", "9"));
    assert!(!natural_less(ValueType::String, "9", "10"));
    assert!(natural_less(ValueType::String, "ab", "abc"));
    assert!(!natural_less(ValueType::String, "abc", "ab"));
    assert!(!natural_less(ValueType::String, "abc", "abc"));
    // a text that is not canonical is not ordered
    assert!(!natural_less(ValueType::Integer, "1", "02"));
    assert!(!natural_less(ValueType::Integer, "x", "2"));
    assert!(!natural_less(ValueType::String, "", "a"));
    assert!(text_less("", "a"));
    assert!(!text_less("a", ""));
    assert!(!text_less("", ""));
    assert!(text_less("a", "b"));
    assert!(text_less("Z", "a"));
    assert!(text_less("z", "\u{e9}"));
}

#[test]
fn a_decimal_is_read_up_to_its_limit() {
    assert_eq!(parse_decimal("x123y", 1, 4, 255), Some(123));
    assert_eq!(parse_decimal("x123y", 1, 4, 123), Some(123));
    assert_eq!(parse_decimal("x123y", 1, 4, 122), None);
    assert_eq!(parse_decimal("x123y", 1, 5, 255), None);
    assert_eq!(parse_decimal("x123y", 1, 1, 255), None);
    assert_eq!(parse_decimal("0", 0, 1, 0), Some(0));
    assert_eq!(parse_decimal("00", 0, 2, 9), None);
    assert_eq!(parse_decimal("18446744073709551615", 0, 20, u64::MAX), Some(u64::MAX));
    assert_eq!(parse_decimal("18446744073709551616", 0, 20, u64::MAX), None);
}
