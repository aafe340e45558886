use overseer_voxel::world::decimal::{append_decimal, append_signed, parse_decimal};

fn parse(text: &str, max: u64) -> Option<u64> {
    parse_decimal(text.as_bytes(), 0, text.len(), max)
}

fn written(n: u64) -> String {
    let mut out = String::new();
    append_decimal(&mut out, n);
    out
}

fn signed(v: i32) -> String {
    let mut out = String::new();
    append_signed(&mut out, v);
    out
}

#[test]
fn parse_reads_plain_numbers() {
    assert_eq!(parse("0", 65535), Some(0));
    assert_eq!(parse("7", 65535), Some(7));
    assert_eq!(parse("4096", 65535), Some(4096));
    assert_eq!(parse("65535", 65535), Some(65535));
}

#[test]
fn parse_ignores_leading_zeros() {
    assert_eq!(parse("007", 65535), Some(7));
    assert_eq!(parse("0000000000000000000000000000065535", 65535), Some(65535));
    assert_eq!(parse("0000", 10), Some(0));
}

#[test]
fn parse_refuses_what_exceeds_the_maximum() {
    assert_eq!(parse("65536", 65535), None);
    assert_eq!(parse("11", 10), None);
    assert_eq!(parse("10", 10), Some(10));
    assert_eq!(parse("99999999999999999999999999", 65535), None);
}

#[test]
fn parse_covers_sixty_four_bits() {
    assert_eq!(parse("18446744073709551615", u64::MAX), Some(u64::MAX));
    assert_eq!(parse("18446744073709551616", u64::MAX), None);
    assert_eq!(parse("184467440737095516150", u64::MAX), None);
}

#[test]
fn parse_refuses_the_empty_field() {
    assert_eq!(parse("", 65535), None);
    assert_eq!(parse_decimal(b"123", 1, 1, 65535), None);
}

#[test]
fn parse_refuses_what_is_no_digit() {
    assert_eq!(parse("12a", 65535), None);
    assert_eq!(parse("-1", 65535), None);
    assert_eq!(parse("+1", 65535), None);
    assert_eq!(parse(" 1", 65535), None);
    assert_eq!(parse("1*2", 65535), None);
}

#[test]
fn parse_reads_a_part_of_the_text() {
    assert_eq!(parse_decimal(b"ab123cd", 2, 5, 1000), Some(123));
    assert_eq!(parse_decimal(b"ab123cd", 2, 4, 1000), Some(12));
    assert_eq!(parse_decimal(b"ab123cd", 1, 5, 1000), None);
}

#[test]
fn append_decimal_writes_the_digits() {
    assert_eq!(written(0), "0");
    assert_eq!(written(9), "9");
    assert_eq!(written(10), "10");
    assert_eq!(written(4096), "4096");
    assert_eq!(written(65535), "65535");
    assert_eq!(written(u64::MAX), "18446744073709551615");
}

#[test]
fn append_decimal_keeps_what_was_there() {
    let mut out = String::from("id ");
    append_decimal(&mut out, 305);
    append_decimal(&mut out, 0);
    assert_eq!(out, "id 3050");
}

#[test]
fn append_signed_writes_the_sign_of_negative_numbers() {
    assert_eq!(signed(0), "0");
    assert_eq!(signed(17), "17");
    assert_eq!(signed(-1), "-1");
    assert_eq!(signed(-250), "-250");
    assert_eq!(signed(i32::MAX), "2147483647");
    assert_eq!(signed(i32::MIN), "-2147483648");
}

#[test]
fn what_is_written_reads_back() {
    for n in [0u64, 1, 9, 10, 99, 100, 4095, 4096, 65535, 1 << 40, u64::MAX] {
        assert_eq!(parse(&written(n), u64::MAX), Some(n));
    }
}
