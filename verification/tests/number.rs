use food_ledger::{parse_int, render_int, IntFault};
use std::num::IntErrorKind;

fn std_reads(s: &str) -> Result<i64, IntFault> {
    match i64::from_str_radix(s, 10) {
        Ok(v) => Ok(v),
        Err(e) => match e.kind() {
            IntErrorKind::Empty => Err(IntFault::Empty),
            IntErrorKind::InvalidDigit => Err(IntFault::InvalidDigit),
            IntErrorKind::PosOverflow => Err(IntFault::PosOverflow),
            IntErrorKind::NegOverflow => Err(IntFault::NegOverflow),
            other => panic!("unexpected kind {:?}", other),
        },
    }
}

#[test]
fn parse_int_reads_plain_numbers() {
    assert_eq!(parse_int("0"), Ok(0));
    assert_eq!(parse_int("7"), Ok(7));
    assert_eq!(parse_int("5000"), Ok(5000));
    assert_eq!(parse_int("007"), Ok(7));
}

#[test]
fn parse_int_reads_signs() {
    assert_eq!(parse_int("+7"), Ok(7));
    assert_eq!(parse_int("-7"), Ok(-7));
    assert_eq!(parse_int("-0"), Ok(0));
    assert_eq!(parse_int("+0"), Ok(0));
}

#[test]
fn parse_int_reads_the_ends_of_the_range() {
    assert_eq!(parse_int("9223372036854775807"), Ok(i64::MAX));
    assert_eq!(parse_int("-9223372036854775808"), Ok(i64::MIN));
    assert_eq!(parse_int("+9223372036854775807"), Ok(i64::MAX));
    assert_eq!(parse_int("0000000000000000000009223372036854775807"), Ok(i64::MAX));
}

#[test]
fn parse_int_rejects_the_empty_text() {
    assert_eq!(parse_int(""), Err(IntFault::Empty));
}

#[test]
fn parse_int_rejects_a_lone_sign() {
    assert_eq!(parse_int("-"), Err(IntFault::InvalidDigit));
    assert_eq!(parse_int("+"), Err(IntFault::InvalidDigit));
}

#[test]
fn parse_int_rejects_other_characters() {
    assert_eq!(parse_int("id"), Err(IntFault::InvalidDigit));
    assert_eq!(parse_int("12a"), Err(IntFault::InvalidDigit));
    assert_eq!(parse_int(" 12"), Err(IntFault::InvalidDigit));
    assert_eq!(parse_int("12 "), Err(IntFault::InvalidDigit));
    assert_eq!(parse_int("1_000"), Err(IntFault::InvalidDigit));
    assert_eq!(parse_int("--1"), Err(IntFault::InvalidDigit));
    assert_eq!(parse_int("1.5"), Err(IntFault::InvalidDigit));
    assert_eq!(parse_int("١٢"), Err(IntFault::InvalidDigit));
}

#[test]
fn parse_int_rejects_numbers_out_of_range() {
    assert_eq!(parse_int("9223372036854775808"), Err(IntFault::PosOverflow));
    assert_eq!(parse_int("-9223372036854775809"), Err(IntFault::NegOverflow));
    assert_eq!(parse_int("99999999999999999999999"), Err(IntFault::PosOverflow));
    assert_eq!(parse_int("-99999999999999999999999"), Err(IntFault::NegOverflow));
}

#[test]
fn parse_int_reports_what_it_meets_first() {
    assert_eq!(parse_int("99999999999999999999x"), Err(IntFault::PosOverflow));
    assert_eq!(parse_int("-99999999999999999999x"), Err(IntFault::NegOverflow));
    assert_eq!(parse_int("1x99999999999999999999"), Err(IntFault::InvalidDigit));
    assert_eq!(parse_int("9223372036854775807x"), Err(IntFault::InvalidDigit));
}

#[test]
fn parse_int_agrees_with_the_standard_library() {
    let samples = vec![
        "", "0", "-0", "+0", "1", "-1", "+1", "42", "-", "+", "+-1", "-+1", "a", "1a", "a1",
        " 1", "1 ", "1,2", "9223372036854775807", "9223372036854775808", "-9223372036854775808",
        "-9223372036854775809", "123456789012345", "1234567890123456", "12345678901234567890",
        "99999999999999999999x", "-99999999999999999999x", "9223372036854775807x",
        "922337203685477580x", "0x10", "1e3", "٣", "00000000000000000000000001",
    ];
    for s in samples {
        assert_eq!(parse_int(s), std_reads(s), "on {:?}", s);
    }
}

#[test]
fn render_int_writes_decimal() {
    assert_eq!(render_int(0), "0");
    assert_eq!(render_int(7), "7");
    assert_eq!(render_int(10), "10");
    assert_eq!(render_int(5000), "5000");
    assert_eq!(render_int(-1), "-1");
    assert_eq!(render_int(-120), "-120");
    assert_eq!(render_int(i64::MAX), "9223372036854775807");
    assert_eq!(render_int(i64::MIN), "-9223372036854775808");
}

#[test]
fn render_int_agrees_with_the_standard_library() {
    let samples: Vec<i64> = vec![
        0, 1, -1, 9, 10, 11, 99, 100, 101, 12345, -12345, 1000000007, i64::MAX, i64::MIN,
        i64::MAX - 1, i64::MIN + 1,
    ];
    for n in samples {
        assert_eq!(render_int(n), format!("{}", n));
    }
}

#[test]
fn parse_int_reads_back_what_render_int_wrote() {
    let samples: Vec<i64> = vec![0, 1, -1, 70, 5000, 150000, i64::MAX, i64::MIN];
    for n in samples {
        assert_eq!(parse_int(&render_int(n)), Ok(n));
    }
}
