use cch23::day1::cube_bits;
use cch23::day21::parse_cell_id;
use cch23::error::MyError;
use cch23::numbers::{decimal_string, parse_i32_chars, parse_unsigned_chars};

fn chars(s: &str) -> Vec<char> {
    s.chars().collect()
}

#[test]
fn cube_bits_of_two_numbers() {
    assert!(matches!(cube_bits("4/8"), Ok(1728)));
}

#[test]
fn cube_bits_of_one_number() {
    assert!(matches!(cube_bits("10"), Ok(1000)));
}

#[test]
fn cube_bits_of_four_numbers() {
    assert!(matches!(cube_bits("4/5/8/10"), Ok(27)));
}

#[test]
fn cube_bits_ignores_trailing_slash() {
    assert!(matches!(cube_bits("4/8/"), Ok(1728)));
}

#[test]
fn cube_bits_of_nothing_is_zero() {
    assert!(matches!(cube_bits(""), Ok(0)));
}

#[test]
fn cube_bits_negative_and_signed() {
    assert!(matches!(cube_bits("-3"), Ok(-27)));
    assert!(matches!(cube_bits("+3"), Ok(27)));
    assert!(matches!(cube_bits("-2147483648"), Ok(0)));
}

#[test]
fn cube_bits_wraps_on_overflow() {
    let x: i32 = 2147483647;
    let expected = x.wrapping_mul(x).wrapping_mul(x);
    assert!(matches!(cube_bits("2147483647"), Ok(v) if v == expected));
}

#[test]
fn cube_bits_rejects_empty_piece() {
    assert!(matches!(cube_bits("4//8"), Err(MyError::ParseError)));
}

#[test]
fn cube_bits_rejects_text() {
    assert!(matches!(cube_bits("a"), Err(MyError::ParseError)));
    assert!(matches!(cube_bits("2147483648"), Err(MyError::ParseError)));
    assert!(matches!(cube_bits("-"), Err(MyError::ParseError)));
}

#[test]
fn cube_bits_rejects_more_than_twenty() {
    let path = vec!["1"; 21].join("/");
    assert!(matches!(cube_bits(&path), Err(MyError::SledRangeExceed)));
    let path = vec!["1"; 20].join("/");
    assert!(matches!(cube_bits(&path), Ok(0)));
}

#[test]
fn cube_bits_parse_error_comes_before_count() {
    let mut pieces = vec!["1"; 25];
    pieces.push("x");
    assert!(matches!(cube_bits(&pieces.join("/")), Err(MyError::ParseError)));
}

#[test]
fn parse_i32_cases() {
    assert_eq!(parse_i32_chars(&chars("0042")), Some(42));
    assert_eq!(parse_i32_chars(&chars("-2147483648")), Some(i32::MIN));
    assert_eq!(parse_i32_chars(&chars("2147483647")), Some(i32::MAX));
    assert_eq!(parse_i32_chars(&chars("+")), None);
    assert_eq!(parse_i32_chars(&chars("")), None);
    assert_eq!(parse_i32_chars(&chars("1 ")), None);
}

#[test]
fn parse_unsigned_cases() {
    assert_eq!(parse_unsigned_chars(&chars("4294967295"), 10, 0xffff_ffff), Some(4294967295));
    assert_eq!(parse_unsigned_chars(&chars("4294967296"), 10, 0xffff_ffff), None);
    assert_eq!(parse_unsigned_chars(&chars("-1"), 10, 0xffff_ffff), None);
    assert_eq!(parse_unsigned_chars(&chars("+7"), 10, 0xffff_ffff), Some(7));
}

#[test]
fn cell_id_binary() {
    assert_eq!(parse_cell_id("101"), Some(5));
    assert_eq!(parse_cell_id("0100111110010011000110011001010101011111000010100011110001011011"), Some(0x4f93_1995_5f0a_3c5b));
    assert_eq!(parse_cell_id(&"1".repeat(64)), Some(u64::MAX));
    assert_eq!(parse_cell_id(&"1".repeat(65)), None);
    assert_eq!(parse_cell_id("102"), None);
    assert_eq!(parse_cell_id(""), None);
    assert_eq!(parse_cell_id("+1"), Some(1));
}

#[test]
fn decimal_text() {
    assert_eq!(decimal_string(0), "0");
    assert_eq!(decimal_string(1234), "1234");
    assert_eq!(decimal_string(u64::MAX), "18446744073709551615");
}

#[test]
fn error_messages() {
    assert_eq!(MyError::ParseError.message(), "Error parsing Values");
    assert_eq!(MyError::SledRangeExceed.message(), "Number of params exceeded");
    assert_eq!(MyError::CookieNotProvided.message(), "Cookie Header Missing");
    assert_eq!(MyError::InvalidBase64.message(), "Invalid Base64 Encoded String");
    assert_eq!(MyError::CustomError("boom".to_string()).message(), "boom");
}
