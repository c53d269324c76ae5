use bit_planes::color::{parse_color, parse_color_truncates, Color, ParseError};

#[test]
fn test_hex_to_rgb() {
    assert!(parse_color("").is_err());
    assert!(parse_color(" ").is_err());
    assert!(parse_color("invalid").is_err());
    assert_eq!(parse_color("000"), Ok(Color::new(0, 0, 0, 255)));
    assert_eq!(parse_color("ffffff"), Ok(Color::new(255, 255, 255, 255)));
    assert_eq!(parse_color("11223344"), Ok(Color::new(17, 34, 51, 68)));
}

#[test]
fn test_parse_empty_and_blank_are_not_hex() {
    assert_eq!(parse_color(""), Err(ParseError::NotHex));
    assert_eq!(parse_color(" "), Err(ParseError::NotHex));
    assert_eq!(parse_color("\t \n"), Err(ParseError::NotHex));
}

#[test]
fn test_parse_non_hex_characters() {
    assert_eq!(parse_color("zz"), Err(ParseError::NotHex));
    assert_eq!(parse_color("invalid"), Err(ParseError::NotHex));
    assert_eq!(parse_color("12g45x"), Err(ParseError::NotHex));
}

#[test]
fn test_parse_odd_digit_count_is_not_hex() {
    assert_eq!(parse_color("12345"), Err(ParseError::NotHex));
}

#[test]
fn test_parse_invalid_byte_count() {
    // 5 bytes: neither a multiple of 3 nor of 4.
    assert_eq!(parse_color("1122334455"), Err(ParseError::InvalidLength));
    // 1 byte.
    assert_eq!(parse_color("11"), Err(ParseError::InvalidLength));
    // 7 bytes.
    assert_eq!(parse_color("11223344556677"), Err(ParseError::InvalidLength));
}

#[test]
fn test_parse_short_forms_expand() {
    assert_eq!(parse_color("fff"), Ok(Color::new(255, 255, 255, 255)));
    assert_eq!(parse_color("0f08"), Ok(Color::new(0, 255, 0, 136)));
    assert_eq!(parse_color("abc"), Ok(Color::new(0xaa, 0xbb, 0xcc, 255)));
}

#[test]
fn test_parse_trims_whitespace() {
    assert_eq!(parse_color(" fff "), Ok(Color::new(255, 255, 255, 255)));
    assert_eq!(parse_color("\t112233\n"), Ok(Color::new(17, 34, 51, 255)));
}

#[test]
fn test_parse_uppercase_digits() {
    assert_eq!(parse_color("FFAA00"), Ok(Color::new(255, 170, 0, 255)));
    assert_eq!(parse_color("AbCdEf"), Ok(Color::new(0xab, 0xcd, 0xef, 255)));
}

#[test]
fn test_parse_first_byte_of_each_group() {
    // 6 bytes, 3 groups of 2: only the leading (big-endian) byte of each
    // group is kept, and the alpha defaults to opaque.
    assert_eq!(parse_color("112233445566"), Ok(Color::new(0x11, 0x33, 0x55, 255)));
}

#[test]
fn test_parse_prefers_three_groups() {
    // 12 bytes divide by both 3 and 4: the 3-group (opaque RGB) reading wins.
    assert_eq!(
        parse_color("0102030405060708090a0b0c"),
        Ok(Color::new(0x01, 0x05, 0x09, 255))
    );
}

#[test]
fn test_truncation_warning_condition() {
    // More than 4 decoded bytes drop precision, even when parsing then fails.
    assert!(parse_color_truncates("112233445566"));
    assert!(parse_color_truncates("1122334455"));
    assert!(!parse_color_truncates("11223344"));
    assert!(!parse_color_truncates("fff"));
    assert!(!parse_color_truncates("not hex at all"));
}
