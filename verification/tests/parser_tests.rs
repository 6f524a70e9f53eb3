use packet_log::ts::{parse_ts, ts_of_line};

const SCALE: i128 = 1_000_000_000;

#[test]
fn plain_integers() {
    assert_eq!(parse_ts(b"0"), Some(0));
    assert_eq!(parse_ts(b"1"), Some(SCALE));
    assert_eq!(parse_ts(b"42"), Some(42 * SCALE));
}

#[test]
fn signs() {
    assert_eq!(parse_ts(b"+3"), Some(3 * SCALE));
    assert_eq!(parse_ts(b"-2"), Some(-2 * SCALE));
    assert_eq!(parse_ts(b"-0"), Some(0));
}

#[test]
fn fractions() {
    assert_eq!(parse_ts(b"1.5"), Some(1_500_000_000));
    assert_eq!(parse_ts(b"-2.25"), Some(-2_250_000_000));
    assert_eq!(parse_ts(b".5"), Some(500_000_000));
    assert_eq!(parse_ts(b"5."), Some(5 * SCALE));
    assert_eq!(parse_ts(b"0.000000001"), Some(1));
}

#[test]
fn digit_limits() {
    assert_eq!(parse_ts(b"123456789012345678"), Some(123_456_789_012_345_678 * SCALE));
    assert_eq!(parse_ts(b"1234567890123456789"), None);
    assert_eq!(parse_ts(b"0.123456789"), Some(123_456_789));
    assert_eq!(parse_ts(b"0.1234567890"), None);
}

#[test]
fn rejected_fields() {
    assert_eq!(parse_ts(b""), None);
    assert_eq!(parse_ts(b"."), None);
    assert_eq!(parse_ts(b"+"), None);
    assert_eq!(parse_ts(b"-."), None);
    assert_eq!(parse_ts(b"abc"), None);
    assert_eq!(parse_ts(b"1e3"), None);
    assert_eq!(parse_ts(b"1.2.3"), None);
    assert_eq!(parse_ts(b"1 "), None);
    assert_eq!(parse_ts(b" 1"), None);
}

#[test]
fn first_field_of_a_row() {
    assert_eq!(ts_of_line(b"7,abc"), Some(7 * SCALE));
    assert_eq!(ts_of_line(b"7"), Some(7 * SCALE));
    assert_eq!(ts_of_line(b"\"2.5\",x"), Some(2_500_000_000));
    assert_eq!(ts_of_line(b"\"\"3\"\",x"), Some(3 * SCALE));
    assert_eq!(ts_of_line(b",x"), None);
    assert_eq!(ts_of_line(b"name,1"), None);
    assert_eq!(ts_of_line(b""), None);
}
