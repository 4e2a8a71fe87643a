//! Tests for the metric-line parser: token splitting, fixed-point values,
//! and the skip-and-continue policy for rejected tokens.

use tlook::parse::{parse_input, parse_metric_line, parse_value, ParseError};

#[test]
fn value_plain_integers() {
    assert_eq!(parse_value(b"10"), Some(10_000_000));
    assert_eq!(parse_value(b"0"), Some(0));
    assert_eq!(parse_value(b"20"), Some(20_000_000));
}

#[test]
fn value_signs_and_fractions() {
    assert_eq!(parse_value(b"-1.5"), Some(-1_500_000));
    assert_eq!(parse_value(b"+2.25"), Some(2_250_000));
    assert_eq!(parse_value(b".25"), Some(250_000));
    assert_eq!(parse_value(b"2."), Some(2_000_000));
    assert_eq!(parse_value(b"-0.000001"), Some(-1));
}

#[test]
fn value_truncates_past_six_fraction_digits() {
    assert_eq!(parse_value(b"1.2345678"), Some(1_234_567));
    assert_eq!(parse_value(b"0.9999999"), Some(999_999));
}

#[test]
fn value_rejects_malformed_text() {
    assert_eq!(parse_value(b""), None);
    assert_eq!(parse_value(b"-"), None);
    assert_eq!(parse_value(b"+"), None);
    assert_eq!(parse_value(b"."), None);
    assert_eq!(parse_value(b"1..2"), None);
    assert_eq!(parse_value(b"1a"), None);
    assert_eq!(parse_value(b"a1"), None);
    assert_eq!(parse_value(b"1 "), None);
    assert_eq!(parse_value(b"--1"), None);
}

#[test]
fn value_exponent_notation() {
    assert_eq!(parse_value(b"1e3"), Some(1_000_000_000));
    assert_eq!(parse_value(b"2E2"), Some(200_000_000));
    assert_eq!(parse_value(b"1e+2"), Some(100_000_000));
    assert_eq!(parse_value(b"1.5e-3"), Some(1_500));
    assert_eq!(parse_value(b"-2.5e1"), Some(-25_000_000));
    assert_eq!(parse_value(b".5e2"), Some(50_000_000));
    assert_eq!(parse_value(b"0e7"), Some(0));
}

#[test]
fn value_exponent_underflow_truncates_to_zero() {
    assert_eq!(parse_value(b"5e-7"), Some(0));
    assert_eq!(parse_value(b"1e-999"), Some(0));
    assert_eq!(
        parse_value(b"-1e-99999999999999999999999999999999999999999999"),
        Some(0)
    );
}

#[test]
fn value_exponent_overflow_is_an_error() {
    assert_eq!(parse_value(b"1e19"), None);
    assert_eq!(parse_value(b"1e99999999999999999999999999999999999999999"), None);
    assert_eq!(parse_value(b"0e99999999999999999999999999999999999999999"), Some(0));
}

#[test]
fn value_exponent_grammar() {
    assert_eq!(parse_value(b"1e"), None);
    assert_eq!(parse_value(b"e3"), None);
    assert_eq!(parse_value(b"1e3.4"), None);
    assert_eq!(parse_value(b"1e--2"), None);
    assert_eq!(parse_value(b"1e+"), None);
    assert_eq!(parse_value(b"1.2.3e4"), None);
}

#[test]
fn value_long_mantissas_stay_exact() {
    // twenty-one digits: only their magnitude within range survives
    assert_eq!(parse_value(b"123456789012345678901e-15"), Some(123_456_789_012));
    assert_eq!(parse_value(b"9223372036854775807e-6"), Some(i64::MAX));
    assert_eq!(parse_value(b"9223372036854775808e-6"), None);
    assert_eq!(parse_value(b"000000000000000000000123e0"), Some(123_000_000));
}

#[test]
fn value_range_boundary() {
    // i64::MAX micro-units is 9223372036854.775807 whole units
    assert_eq!(parse_value(b"9223372036854.775807"), Some(i64::MAX));
    assert_eq!(parse_value(b"9223372036854.775808"), None);
    assert_eq!(parse_value(b"-9223372036854.775807"), Some(-i64::MAX));
    assert_eq!(parse_value(b"99999999999999"), None);
    assert_eq!(parse_value(b"00000000000000001"), Some(1_000_000));
}

#[test]
fn token_splits_at_first_equals() {
    let (name, v) = parse_input(b"cpu=10").unwrap();
    assert_eq!(name, b"cpu".to_vec());
    assert_eq!(v, 10_000_000);
    // the name ends at the first `=`, so the rest must be one number
    assert_eq!(parse_input(b"a=b=1").unwrap_err(), ParseError::BadValue);
}

#[test]
fn token_errors_are_classified() {
    assert_eq!(parse_input(b"no_delimiter").unwrap_err(), ParseError::MissingDelimiter);
    assert_eq!(parse_input(b"cpu=ten").unwrap_err(), ParseError::BadValue);
    assert_eq!(parse_input(b"cpu=").unwrap_err(), ParseError::BadValue);
    // an empty name is allowed, as in `=5`
    let (name, v) = parse_input(b"=5").unwrap();
    assert_eq!(name, Vec::<u8>::new());
    assert_eq!(v, 5_000_000);
}

#[test]
fn line_with_two_metrics() {
    let samples = parse_metric_line(b"cpu=10;mem=20");
    assert_eq!(samples.len(), 2);
    assert_eq!(samples[0].0, b"cpu".to_vec());
    assert_eq!(samples[0].1, 10_000_000);
    assert_eq!(samples[1].0, b"mem".to_vec());
    assert_eq!(samples[1].1, 20_000_000);
}

#[test]
fn line_skips_bad_tokens() {
    let samples = parse_metric_line(b"bad_token;cpu=5");
    assert_eq!(samples.len(), 1);
    assert_eq!(samples[0].0, b"cpu".to_vec());
    assert_eq!(samples[0].1, 5_000_000);
}

#[test]
fn line_ignores_empty_tokens() {
    let samples = parse_metric_line(b"a=1;;b=2;");
    assert_eq!(samples.len(), 2);
    assert_eq!(samples[0].0, b"a".to_vec());
    assert_eq!(samples[1].0, b"b".to_vec());
}

#[test]
fn line_accepts_exponent_values() {
    let (name, v) = parse_input(b"freq=1e3").unwrap();
    assert_eq!(name, b"freq".to_vec());
    assert_eq!(v, 1_000_000_000);
    let samples = parse_metric_line(b"freq=1e3;amp=2.5e-1");
    assert_eq!(samples.len(), 2);
    assert_eq!(samples[0].1, 1_000_000_000);
    assert_eq!(samples[1].1, 250_000);
}

#[test]
fn empty_line_yields_nothing() {
    assert_eq!(parse_metric_line(b"").len(), 0);
    assert_eq!(parse_metric_line(b";;;").len(), 0);
}
