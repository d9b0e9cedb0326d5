use station_stats::value::parse_value;

#[test]
fn plain_numerals() {
    assert_eq!(parse_value(b"12.3"), Some(123));
    assert_eq!(parse_value(b"15.0"), Some(150));
    assert_eq!(parse_value(b"9.5"), Some(95));
    assert_eq!(parse_value(b"0"), Some(0));
    assert_eq!(parse_value(b"7"), Some(70));
    assert_eq!(parse_value(b"007.5"), Some(75));
}

#[test]
fn signs() {
    assert_eq!(parse_value(b"-3.4"), Some(-34));
    assert_eq!(parse_value(b"+3.4"), Some(34));
    assert_eq!(parse_value(b"-0.0"), Some(0));
    assert_eq!(parse_value(b"-0.04"), Some(0));
    assert_eq!(parse_value(b"-"), None);
    assert_eq!(parse_value(b"+"), None);
    assert_eq!(parse_value(b"--1"), None);
    assert_eq!(parse_value(b"1-"), None);
}

#[test]
fn point_without_digits_on_one_side() {
    assert_eq!(parse_value(b"5."), Some(50));
    assert_eq!(parse_value(b".5"), Some(5));
    assert_eq!(parse_value(b"-.5"), Some(-5));
    assert_eq!(parse_value(b"."), None);
    assert_eq!(parse_value(b"-."), None);
}

#[test]
fn later_digits_round_to_the_nearest_tenth() {
    assert_eq!(parse_value(b"12.34"), Some(123));
    assert_eq!(parse_value(b"12.35"), Some(124));
    assert_eq!(parse_value(b"12.349999"), Some(123));
    assert_eq!(parse_value(b"-12.35"), Some(-124));
    assert_eq!(parse_value(b"0.95"), Some(10));
    assert_eq!(parse_value(b"9.99"), Some(100));
    assert_eq!(parse_value(b"1.000000000000000000000000000000"), Some(10));
}

#[test]
fn what_is_no_decimal_numeral() {
    assert_eq!(parse_value(b""), None);
    assert_eq!(parse_value(b"abc"), None);
    assert_eq!(parse_value(b"1.2.3"), None);
    assert_eq!(parse_value(b"1e5"), None);
    assert_eq!(parse_value(b" 1"), None);
    assert_eq!(parse_value(b"1 "), None);
    assert_eq!(parse_value(b"1.2x"), None);
    assert_eq!(parse_value(b"1,2"), None);
    assert_eq!(parse_value(b"inf"), None);
    assert_eq!(parse_value(b"NaN"), None);
    assert_eq!(parse_value(b"12.3\r"), None);
}

#[test]
fn limits() {
    assert_eq!(parse_value(b"922337203685477580.7"), Some(i64::MAX));
    assert_eq!(parse_value(b"-922337203685477580.7"), Some(-i64::MAX));
    assert_eq!(parse_value(b"922337203685477580.8"), None);
    assert_eq!(parse_value(b"922337203685477580.75"), None);
    assert_eq!(parse_value(b"922337203685477581"), None);
    assert_eq!(parse_value(b"99999999999999999999999999999999999999999999999999"), None);
    assert_eq!(parse_value(b"99999999999999999999999999999999999999999999999999x"), None);
    assert_eq!(parse_value(b"000000000000000000000000000000000000000001.5"), Some(15));
}
