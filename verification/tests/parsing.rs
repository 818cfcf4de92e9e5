//! The line parser alone: values in tenths and every skip reason.
use keystats::parse::parse_line;
use keystats::parse::parse_value;
use keystats::parse::Parsed;
use keystats::parse::SkipReason;

fn parse(line: &[u8]) -> Parsed {
    parse_line(&line.to_vec())
}

fn rec(line: &[u8]) -> (Vec<u8>, i64) {
    match parse(line) {
        Parsed::Record { key, tenths } => (key, tenths),
        Parsed::Skipped { .. } => panic!("expected a record"),
    }
}

fn skip_reason(line: &[u8]) -> SkipReason {
    match parse(line) {
        Parsed::Record { .. } => panic!("expected a skip"),
        Parsed::Skipped { reason } => reason,
    }
}

#[test]
fn plain_record() {
    let (key, tenths) = rec(b"Oslo;12.3");
    assert_eq!(key, b"Oslo".to_vec());
    assert_eq!(tenths, 123);
}

#[test]
fn integer_value_scales_to_tenths() {
    assert_eq!(rec(b"k;7").1, 70);
    assert_eq!(rec(b"k;-4").1, -40);
    assert_eq!(rec(b"k;0").1, 0);
}

#[test]
fn fractional_digits_past_the_first_truncate() {
    assert_eq!(rec(b"k;1.25").1, 12);
    assert_eq!(rec(b"k;-1.25").1, -12);
    assert_eq!(rec(b"k;0.09").1, 0);
}

#[test]
fn leading_dot_and_signs() {
    assert_eq!(rec(b"k;.5").1, 5);
    assert_eq!(rec(b"k;-.5").1, -5);
    assert_eq!(skip_reason(b"k;+5"), SkipReason::NonNumeric);
    assert_eq!(skip_reason(b"k;-"), SkipReason::NonNumeric);
    assert_eq!(skip_reason(b"k;5."), SkipReason::NonNumeric);
}

#[test]
fn missing_separator() {
    assert_eq!(skip_reason(b"no separator here"), SkipReason::MissingSeparator);
    assert_eq!(skip_reason(b""), SkipReason::MissingSeparator);
}

#[test]
fn empty_key() {
    assert_eq!(skip_reason(b";1.0"), SkipReason::EmptyKey);
}

#[test]
fn non_numeric_values() {
    assert_eq!(skip_reason(b"k;notanumber"), SkipReason::NonNumeric);
    assert_eq!(skip_reason(b"k;"), SkipReason::NonNumeric);
    assert_eq!(skip_reason(b"k;1.2.3"), SkipReason::NonNumeric);
    assert_eq!(skip_reason(b"k;1;2"), SkipReason::NonNumeric);
    assert_eq!(skip_reason(b"k;1e5"), SkipReason::NonNumeric);
    assert_eq!(skip_reason(b"k;inf"), SkipReason::NonNumeric);
}

#[test]
fn value_beyond_i64_tenths_is_rejected() {
    assert_eq!(skip_reason(b"k;99999999999999999999"), SkipReason::NonNumeric);
    assert_eq!(parse_value(&b"922337203685477580.7".to_vec()), Some(i64::MAX));
    assert_eq!(parse_value(&b"922337203685477580.8".to_vec()), None);
    assert_eq!(parse_value(&b"-922337203685477580.7".to_vec()), Some(-i64::MAX));
}

#[test]
fn trailing_carriage_return_is_stripped() {
    let (key, tenths) = rec(b"Rio;2.0\r");
    assert_eq!(key, b"Rio".to_vec());
    assert_eq!(tenths, 20);
}

#[test]
fn key_may_hold_anything_but_separator_and_newline() {
    let (key, tenths) = rec(b"north pole 42;-3.5");
    assert_eq!(key, b"north pole 42".to_vec());
    assert_eq!(tenths, -35);
}
