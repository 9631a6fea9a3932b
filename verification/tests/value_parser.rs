use station_stats::scan::FormatFault;
use station_stats::value::{ascii_slice_to_i32, digit_byte};

#[test]
fn parses_negative_value() {
    assert_eq!(ascii_slice_to_i32(b"-12.3"), Ok(-123));
}

#[test]
fn parses_zero() {
    assert_eq!(ascii_slice_to_i32(b"0.0"), Ok(0));
}

#[test]
fn parses_two_digit_value() {
    assert_eq!(ascii_slice_to_i32(b"99.9"), Ok(999));
}

#[test]
fn parses_whole_value() {
    assert_eq!(ascii_slice_to_i32(b"5.0"), Ok(50));
}

#[test]
fn parses_negative_zero() {
    assert_eq!(ascii_slice_to_i32(b"-0.0"), Ok(0));
}

#[test]
fn leading_zeros_carry_no_weight() {
    assert_eq!(ascii_slice_to_i32(b"00012.3"), Ok(123));
    assert_eq!(ascii_slice_to_i32(b"-000000000000000000000001.5"), Ok(-15));
}

#[test]
fn every_position_is_weighed() {
    assert_eq!(ascii_slice_to_i32(b"1234.5"), Ok(12345));
    assert_eq!(ascii_slice_to_i32(b"-1000.0"), Ok(-10000));
    assert_eq!(ascii_slice_to_i32(b"0.7"), Ok(7));
}

#[test]
fn largest_and_smallest_values_fit() {
    assert_eq!(ascii_slice_to_i32(b"214748364.7"), Ok(i32::MAX));
    assert_eq!(ascii_slice_to_i32(b"-214748364.8"), Ok(i32::MIN));
}

#[test]
fn values_beyond_the_range_are_rejected() {
    assert_eq!(ascii_slice_to_i32(b"214748364.8"), Err(FormatFault::OutOfRange));
    assert_eq!(ascii_slice_to_i32(b"-214748364.9"), Err(FormatFault::OutOfRange));
    assert_eq!(ascii_slice_to_i32(b"214748365.0"), Err(FormatFault::OutOfRange));
    assert_eq!(
        ascii_slice_to_i32(b"99999999999999999999999999.9"),
        Err(FormatFault::OutOfRange)
    );
}

#[test]
fn rejects_letters() {
    assert_eq!(ascii_slice_to_i32(b"abc"), Err(FormatFault::NonNumeric));
    assert_eq!(ascii_slice_to_i32(b"12a.3"), Err(FormatFault::NonNumeric));
    assert_eq!(ascii_slice_to_i32(b"1.5 "), Err(FormatFault::NonNumeric));
    assert_eq!(ascii_slice_to_i32(b"+1.5"), Err(FormatFault::NonNumeric));
}

#[test]
fn a_foreign_byte_is_reported_before_the_shape() {
    assert_eq!(ascii_slice_to_i32(b"1-2x"), Err(FormatFault::NonNumeric));
    assert_eq!(ascii_slice_to_i32(b"x"), Err(FormatFault::NonNumeric));
}

#[test]
fn rejects_wrong_shapes() {
    assert_eq!(ascii_slice_to_i32(b""), Err(FormatFault::BadShape));
    assert_eq!(ascii_slice_to_i32(b"-"), Err(FormatFault::BadShape));
    assert_eq!(ascii_slice_to_i32(b"1"), Err(FormatFault::BadShape));
    assert_eq!(ascii_slice_to_i32(b"12"), Err(FormatFault::BadShape));
    assert_eq!(ascii_slice_to_i32(b".5"), Err(FormatFault::BadShape));
    assert_eq!(ascii_slice_to_i32(b"-.5"), Err(FormatFault::BadShape));
    assert_eq!(ascii_slice_to_i32(b"1."), Err(FormatFault::BadShape));
    assert_eq!(ascii_slice_to_i32(b"1.23"), Err(FormatFault::BadShape));
    assert_eq!(ascii_slice_to_i32(b"1.2.3"), Err(FormatFault::BadShape));
    assert_eq!(ascii_slice_to_i32(b"1-2.3"), Err(FormatFault::BadShape));
    assert_eq!(ascii_slice_to_i32(b"--1.5"), Err(FormatFault::BadShape));
    assert_eq!(ascii_slice_to_i32(b"1.-"), Err(FormatFault::BadShape));
}

#[test]
fn a_wrong_shape_is_reported_before_the_size() {
    assert_eq!(
        ascii_slice_to_i32(b"99999999999999-9.5"),
        Err(FormatFault::BadShape)
    );
}

#[test]
fn digits_are_recognised() {
    assert!(digit_byte(b'0'));
    assert!(digit_byte(b'9'));
    assert!(!digit_byte(b'/'));
    assert!(!digit_byte(b':'));
    assert!(!digit_byte(b'-'));
}
