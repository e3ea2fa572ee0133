use city_temps::decode::parse_float_as_ints;
use city_temps::decode::DecodeError;

#[test]
fn decodes_fractional_shapes() {
    assert_eq!(parse_float_as_ints(b"0.5"), Ok(5));
    assert_eq!(parse_float_as_ints(b"12.3"), Ok(123));
    assert_eq!(parse_float_as_ints(b"40.0"), Ok(400));
    assert_eq!(parse_float_as_ints(b"123.4"), Ok(1234));
    assert_eq!(parse_float_as_ints(b"999.9"), Ok(9999));
    assert_eq!(parse_float_as_ints(b"0.0"), Ok(0));
}

#[test]
fn decodes_negative_tokens() {
    assert_eq!(parse_float_as_ints(b"-0.5"), Ok(-5));
    assert_eq!(parse_float_as_ints(b"-12.3"), Ok(-123));
    assert_eq!(parse_float_as_ints(b"-999.9"), Ok(-9999));
    assert_eq!(parse_float_as_ints(b"-7"), Ok(-70));
    assert_eq!(parse_float_as_ints(b"-0.0"), Ok(0));
}

#[test]
fn decodes_integer_only_tokens() {
    assert_eq!(parse_float_as_ints(b"7"), Ok(70));
    assert_eq!(parse_float_as_ints(b"12"), Ok(120));
    assert_eq!(parse_float_as_ints(b"123"), Ok(1230));
    assert_eq!(parse_float_as_ints(b"999"), Ok(9990));
    assert_eq!(parse_float_as_ints(b"0"), Ok(0));
}

#[test]
fn rejects_empty_and_bare_sign() {
    assert_eq!(parse_float_as_ints(b""), Err(DecodeError));
    assert_eq!(parse_float_as_ints(b"-"), Err(DecodeError));
    assert_eq!(parse_float_as_ints(b"--1"), Err(DecodeError));
}

#[test]
fn rejects_too_many_digits() {
    assert_eq!(parse_float_as_ints(b"1234"), Err(DecodeError));
    assert_eq!(parse_float_as_ints(b"1234.5"), Err(DecodeError));
    assert_eq!(parse_float_as_ints(b"12.34"), Err(DecodeError));
    assert_eq!(parse_float_as_ints(b"-1234.5"), Err(DecodeError));
}

#[test]
fn rejects_misplaced_points() {
    assert_eq!(parse_float_as_ints(b".5"), Err(DecodeError));
    assert_eq!(parse_float_as_ints(b"5."), Err(DecodeError));
    assert_eq!(parse_float_as_ints(b"12."), Err(DecodeError));
    assert_eq!(parse_float_as_ints(b"1.23"), Err(DecodeError));
    assert_eq!(parse_float_as_ints(b"1.2.3"), Err(DecodeError));
}

#[test]
fn rejects_non_digit_bytes() {
    assert_eq!(parse_float_as_ints(b"abc"), Err(DecodeError));
    assert_eq!(parse_float_as_ints(b"1a"), Err(DecodeError));
    assert_eq!(parse_float_as_ints(b"a.5"), Err(DecodeError));
    assert_eq!(parse_float_as_ints(b"1.a"), Err(DecodeError));
    assert_eq!(parse_float_as_ints(b"1-2"), Err(DecodeError));
    assert_eq!(parse_float_as_ints(b"+1.2"), Err(DecodeError));
    assert_eq!(parse_float_as_ints(b"12.3\n"), Err(DecodeError));
    assert_eq!(parse_float_as_ints(b" 1.2"), Err(DecodeError));
}
