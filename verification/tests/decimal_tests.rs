//! Decimal integers as read and written on the wire.

use redis_lite::decimal::{parse_i64, parse_u64, push_digits, push_i64_text};

fn i(text: &str) -> Option<i64> {
    parse_i64(text.as_bytes(), 0, text.len())
}

fn u(text: &str) -> Option<u64> {
    parse_u64(text.as_bytes(), 0, text.len())
}

#[test]
fn parse_i64_agrees_with_std() {
    for text in [
        "0", "-0", "+0", "42", "-42", "+42", "007", "-", "+", "", "1-", "--1", "+-1", " 1",
        "9223372036854775807", "9223372036854775808", "-9223372036854775808",
        "-9223372036854775809", "99999999999999999999999",
    ] {
        assert_eq!(i(text), text.parse::<i64>().ok(), "{:?}", text);
    }
}

#[test]
fn parse_u64_agrees_with_std() {
    for text in [
        "0", "-0", "+0", "10", "+10", "-10", "-", "+", "", "18446744073709551615",
        "18446744073709551616", "1_000",
    ] {
        assert_eq!(u(text), text.parse::<u64>().ok(), "{:?}", text);
    }
}

#[test]
fn parse_reads_a_range_of_the_buffer() {
    assert_eq!(parse_i64(b"ab123cd", 2, 5), Some(123));
    assert_eq!(parse_u64(b"ab123cd", 2, 2), None);
}

#[test]
fn written_integers_match_display() {
    for n in [0i64, 7, -7, 10, 1234567890, i64::MAX, i64::MIN] {
        let mut out = Vec::new();
        push_i64_text(&mut out, n);
        assert_eq!(out, n.to_string().into_bytes());
    }
    let mut out = b"x".to_vec();
    push_digits(&mut out, u64::MAX);
    assert_eq!(out, format!("x{}", u64::MAX).into_bytes());
}
