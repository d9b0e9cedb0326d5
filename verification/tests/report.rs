use station_stats::pipeline::read_stations_data_chunked;
use station_stats::report::{format_result, format_tenths, write_tenths};
use station_stats::scan::{read_stations_data, read_stations_data_slice};
use station_stats::stations::Stations;
use station_stats::stats::StationData;
use station_stats::value::parse_value;

#[test]
fn example_report() {
    let m = read_stations_data_slice(b"Paris;12.3\nParis;15.0\nLondon;9.5\n").unwrap();
    assert_eq!(format_result(&m), b"{London=9.5/9.5/9.5, Paris=12.3/13.7/15.0}");
    let m = read_stations_data_chunked(b"Paris;12.3\nParis;15.0\nLondon;9.5\n", 3).unwrap();
    assert_eq!(format_result(&m), b"{London=9.5/9.5/9.5, Paris=12.3/13.7/15.0}");
}

#[test]
fn report_of_nothing_and_of_one_key() {
    assert_eq!(format_result(&Stations::new()), b"{}");
    let m = read_stations_data_slice(b"Oslo;-3.4").unwrap();
    assert_eq!(format_result(&m), b"{Oslo=-3.4/-3.4/-3.4}");
}

#[test]
fn report_keeps_keys_that_are_not_ascii() {
    let m = read_stations_data_slice("Z\u{fc}rich;1.5\nAbha;-2\nZ\u{fc}rich;2.5\n".as_bytes()).unwrap();
    assert_eq!(
        String::from_utf8(format_result(&m)).unwrap(),
        "{Abha=-2.0/-2.0/-2.0, Z\u{fc}rich=1.5/2.0/2.5}"
    );
}

#[test]
fn tenths_are_written_with_one_digit_after_the_point() {
    assert_eq!(format_tenths(0), b"0.0");
    assert_eq!(format_tenths(5), b"0.5");
    assert_eq!(format_tenths(-5), b"-0.5");
    assert_eq!(format_tenths(123), b"12.3");
    assert_eq!(format_tenths(-123), b"-12.3");
    assert_eq!(format_tenths(1000), b"100.0");
    assert_eq!(format_tenths(i64::MAX), b"922337203685477580.7");
    assert_eq!(format_tenths(i64::MIN), b"-922337203685477580.8");
    let mut out = b"x=".to_vec();
    write_tenths(&mut out, -71);
    assert_eq!(out, b"x=-7.1");
}

#[test]
fn what_is_written_reads_back() {
    for v in [0, 1, -1, 9, 10, -10, 99, 100, 123, -999, 1_000_000, i64::MAX, -i64::MAX] {
        assert_eq!(parse_value(&format_tenths(v)), Some(v));
    }
}

fn stats(values: &[i64]) -> StationData {
    let mut d = StationData::new(values[0]);
    for v in &values[1..] {
        d.observe(*v);
    }
    d
}

#[test]
fn mean_rounds_to_the_nearest_tenth_and_halves_upwards() {
    assert_eq!(stats(&[123, 150]).mean(), 137);
    assert_eq!(stats(&[95]).mean(), 95);
    assert_eq!(stats(&[1, 2]).mean(), 2);
    assert_eq!(stats(&[1, 1, 2]).mean(), 1);
    assert_eq!(stats(&[1, 2, 2]).mean(), 2);
    assert_eq!(stats(&[-1, -2]).mean(), -1);
    assert_eq!(stats(&[-1, -1, -2]).mean(), -1);
    assert_eq!(stats(&[-1, -2, -2]).mean(), -2);
    assert_eq!(stats(&[-3, -4]).mean(), -3);
    assert_eq!(stats(&[-7, 0, 0, 0]).mean(), -2);
    assert_eq!(stats(&[-5, 5]).mean(), 0);
    assert_eq!(stats(&[-1, 0]).mean(), 0);
    assert_eq!(stats(&[i64::MAX, i64::MAX]).mean(), i64::MAX);
    assert_eq!(stats(&[i64::MIN, i64::MIN, i64::MIN]).mean(), i64::MIN);
    assert_eq!(stats(&[i64::MIN, i64::MAX]).mean(), 0);
}

#[test]
fn lenient_scan_passes_over_refused_records() {
    let data = b"a;1.0\nno delimiter\nb;x\n\na;3.0\n\xff;1\nb;2.5";
    let m = read_stations_data(data);
    assert_eq!(format_result(&m), b"{a=1.0/2.0/3.0, b=2.5/2.5/2.5}");
    assert!(read_stations_data_slice(data).is_err());
}

#[test]
fn lenient_scan_equals_strict_scan_where_nothing_is_refused() {
    let data = b"Paris;12.3\nLondon;9.5\nParis;15.0\nOslo;-3.4\nLondon;10.5";
    let strict = read_stations_data_slice(data).unwrap();
    let lenient = read_stations_data(data);
    assert_eq!(format_result(&strict), format_result(&lenient));
    assert_eq!(
        format_result(&lenient),
        b"{London=9.5/10.0/10.5, Oslo=-3.4/-3.4/-3.4, Paris=12.3/13.7/15.0}"
    );
    assert!(read_stations_data(b"").is_empty());
}
