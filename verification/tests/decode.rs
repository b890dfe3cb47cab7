use network::decode::decode_value;
use network::{LinkParserError, LinkValue};

fn ok(neg: bool, mant: u64, exp10: i128) -> Result<LinkValue, LinkParserError> {
    Ok(LinkValue { neg, mant, exp10 })
}

#[test]
fn plain_integers() {
    assert_eq!(decode_value(b"102"), ok(false, 102, 0));
    assert_eq!(decode_value(b"0"), ok(false, 0, 0));
    assert_eq!(decode_value(b"-42"), ok(true, 42, 0));
    assert_eq!(decode_value(b"+7"), ok(false, 7, 0));
}

#[test]
fn fractions() {
    assert_eq!(decode_value(b"100.5"), ok(false, 1005, -1));
    assert_eq!(decode_value(b"1."), ok(false, 1, 0));
    assert_eq!(decode_value(b".5"), ok(false, 5, -1));
    assert_eq!(decode_value(b"00012.50"), ok(false, 1250, -2));
    assert_eq!(decode_value(b"-0.001"), ok(true, 1, -3));
    assert_eq!(decode_value(b"0.000"), ok(false, 0, -3));
}

#[test]
fn exponents() {
    assert_eq!(decode_value(b"3e7"), ok(false, 3, 7));
    assert_eq!(decode_value(b"3E7"), ok(false, 3, 7));
    assert_eq!(decode_value(b"-.5e-2"), ok(true, 5, -3));
    assert_eq!(decode_value(b"2.5e+03"), ok(false, 25, 2));
}

#[test]
fn exponent_magnitude_saturates() {
    assert_eq!(decode_value(b"1e99999999999999999999"), ok(false, 1, 1000000));
    assert_eq!(decode_value(b"1e-99999999999999999999"), ok(false, 1, -1000000));
    assert_eq!(decode_value(b"1e1000000"), ok(false, 1, 1000000));
}

#[test]
fn mantissa_keeps_nineteen_significant_digits() {
    assert_eq!(
        decode_value(b"12345678901234567890123.4"),
        ok(false, 1234567890123456789, 4),
    );
    assert_eq!(decode_value(b"0000000000000000000000001"), ok(false, 1, 0));
}

#[test]
fn malformed_numbers_are_rejected() {
    for bad in [
        &b"abc"[..], b"", b"+", b"-", b".", b"1.2.3", b"1e", b"1e+", b"5 ", b" 5", b"0x10",
        b"1,5", b"nan", b"inf",
    ] {
        assert_eq!(decode_value(bad), Err(LinkParserError::InvalidNumber), "input {:?}", bad);
    }
}

#[test]
fn non_utf8_bytes_are_an_encoding_error() {
    assert_eq!(decode_value(&[0xff]), Err(LinkParserError::InvalidEncoding));
    assert_eq!(decode_value(&[0x31, 0xc0, 0x80]), Err(LinkParserError::InvalidEncoding));
}

#[test]
fn valid_utf8_that_is_no_number_is_a_number_error() {
    // A two-byte UTF-8 sequence: well-encoded text, but not a decimal.
    assert_eq!(decode_value(&[0xc3, 0xa9]), Err(LinkParserError::InvalidNumber));
}
