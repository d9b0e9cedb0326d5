use station_stats::pipeline::read_stations_data_chunked;
use station_stats::record::{parse_record, ErrorKind};
use station_stats::scan::read_stations_data_slice;
use station_stats::stations::Stations;

fn stats_of(m: &Stations<'_>, key: &str) -> (i64, i64, i128, u64) {
    let d = m.get(key).expect("key is present");
    (d.min(), d.max(), d.sum(), d.count())
}

#[test]
fn example_three_lines() {
    let data = b"Paris;12.3\nParis;15.0\nLondon;9.5\n";
    let m = read_stations_data_slice(data).unwrap();
    assert_eq!(m.len(), 2);
    assert_eq!(stats_of(&m, "London"), (95, 95, 95, 1));
    assert_eq!(stats_of(&m, "Paris"), (123, 150, 273, 2));
    assert!(m.get("Berlin").is_none());
}

#[test]
fn empty_input_gives_empty_mapping() {
    let m = read_stations_data_slice(b"").unwrap();
    assert!(m.is_empty());
    assert_eq!(m.len(), 0);
    let m = read_stations_data_chunked(b"", 16).unwrap();
    assert!(m.is_empty());
}

#[test]
fn one_record_with_terminator() {
    let m = read_stations_data_slice(b"Oslo;-3.4\n").unwrap();
    assert_eq!(m.len(), 1);
    assert_eq!(stats_of(&m, "Oslo"), (-34, -34, -34, 1));
}

#[test]
fn one_record_without_terminator() {
    let m = read_stations_data_slice(b"Oslo;-3.4").unwrap();
    assert_eq!(m.len(), 1);
    assert_eq!(stats_of(&m, "Oslo"), (-34, -34, -34, 1));
}

#[test]
fn last_record_without_terminator_is_kept() {
    let m = read_stations_data_slice(b"a;1.0\nb;2.0").unwrap();
    assert_eq!(m.len(), 2);
    assert_eq!(stats_of(&m, "a"), (10, 10, 10, 1));
    assert_eq!(stats_of(&m, "b"), (20, 20, 20, 1));
}

#[test]
fn malformed_value_is_a_format_error() {
    let e = read_stations_data_slice(b"Paris;abc\n").unwrap_err();
    assert_eq!(e.kind, ErrorKind::Format);
    assert_eq!(e.record, b"Paris;abc");
    let e = read_stations_data_chunked(b"Rome;1.0\nParis;abc\nRome;2.0\n", 4).unwrap_err();
    assert_eq!(e.kind, ErrorKind::Format);
    assert_eq!(e.record, b"Paris;abc");
}

#[test]
fn record_without_delimiter_is_malformed() {
    let e = read_stations_data_slice(b"a;1.0\nnothing here\n").unwrap_err();
    assert_eq!(e.kind, ErrorKind::MalformedRecord);
    assert_eq!(e.record, b"nothing here");
}

#[test]
fn empty_line_is_malformed() {
    let e = read_stations_data_slice(b"a;1.0\n\nb;2.0\n").unwrap_err();
    assert_eq!(e.kind, ErrorKind::MalformedRecord);
    assert_eq!(e.record, b"");
}

#[test]
fn key_that_is_not_text_is_an_encoding_error() {
    let data: &[u8] = &[0xff, 0xfe, b';', b'1', b'.', b'0', b'\n'];
    let e = read_stations_data_slice(data).unwrap_err();
    assert_eq!(e.kind, ErrorKind::Encoding);
    assert_eq!(e.record, &data[..6]);
}

#[test]
fn value_that_is_not_text_is_an_encoding_error() {
    let data: &[u8] = &[b'k', b';', b'1', 0xc3];
    let e = read_stations_data_slice(data).unwrap_err();
    assert_eq!(e.kind, ErrorKind::Encoding);
}

#[test]
fn first_failure_in_file_order_is_reported() {
    let data = b"a;1.0\nbad\nb;x\n";
    let e = read_stations_data_slice(data).unwrap_err();
    assert_eq!(e.kind, ErrorKind::MalformedRecord);
    assert_eq!(e.record, b"bad");
    for size in 0..data.len() + 2 {
        let e = read_stations_data_chunked(data, size).unwrap_err();
        assert_eq!(e.kind, ErrorKind::MalformedRecord);
        assert_eq!(e.record, b"bad");
    }
}

#[test]
fn key_is_what_stands_before_the_first_delimiter() {
    let (key, value) = parse_record(b"Reykjav\xc3\xadk;-1.5").unwrap();
    assert_eq!(key, "Reykjav\u{ed}k");
    assert_eq!(value, -15);
    let e = parse_record(b"a;b;1.0").unwrap_err();
    assert_eq!(e.kind, ErrorKind::Format);
    let (key, value) = parse_record(b";7").unwrap();
    assert_eq!(key, "");
    assert_eq!(value, 70);
}

#[test]
fn folds_minimum_maximum_sum_and_count() {
    let data = b"x;5.0\nx;-2.5\nx;7.1\nx;0.0\ny;1.0\n";
    let m = read_stations_data_slice(data).unwrap();
    assert_eq!(stats_of(&m, "x"), (-25, 71, 96, 4));
    assert_eq!(stats_of(&m, "y"), (10, 10, 10, 1));
}

fn same_mapping(a: &Stations<'_>, b: &Stations<'_>) -> bool {
    if a.len() != b.len() {
        return false;
    }
    for i in 0..a.len() {
        let e = a.entry(i);
        match b.get(e.key()) {
            Some(d) => {
                let own = e.data();
                if (d.min(), d.max(), d.sum(), d.count())
                    != (own.min(), own.max(), own.sum(), own.count())
                {
                    return false;
                }
            }
            None => return false,
        }
    }
    true
}

#[test]
fn chunked_scan_equals_linear_scan_for_every_chunk_size() {
    let data = b"Paris;12.3\nLondon;9.5\nParis;15.0\nOslo;-3.4\nLondon;10.5\nOslo;-7.0\nParis;0.1";
    let linear = read_stations_data_slice(data).unwrap();
    assert_eq!(linear.len(), 3);
    for size in 0..data.len() + 3 {
        let chunked = read_stations_data_chunked(data, size).unwrap();
        assert!(same_mapping(&linear, &chunked), "chunk size {}", size);
        assert!(same_mapping(&chunked, &linear), "chunk size {}", size);
    }
    let chunked = read_stations_data_chunked(data, 11).unwrap();
    assert_eq!(stats_of(&chunked, "Paris"), (1, 150, 274, 3));
    assert_eq!(stats_of(&chunked, "London"), (95, 105, 200, 2));
    assert_eq!(stats_of(&chunked, "Oslo"), (-70, -34, -104, 2));
}

#[test]
fn many_chunks_are_scanned_and_merged() {
    let mut data = Vec::new();
    for i in 0..5000u32 {
        let key = i % 7;
        let tenths = (i % 100) as i64 - 50;
        let line = format!("k{};{}.{}\n", key, tenths / 10, (tenths % 10).abs());
        if tenths < 0 && tenths > -10 {
            data.extend_from_slice(format!("k{};-0.{}\n", key, -tenths).as_bytes());
        } else {
            data.extend_from_slice(line.as_bytes());
        }
    }
    let linear = read_stations_data_slice(&data).unwrap();
    let chunked = read_stations_data_chunked(&data, 64).unwrap();
    assert_eq!(linear.len(), 7);
    assert!(same_mapping(&linear, &chunked));
    let mut total: u64 = 0;
    for i in 0..chunked.len() {
        total += chunked.entry(i).data().count();
    }
    assert_eq!(total, 5000);
}

#[test]
fn chunk_size_changes_neither_entries_nor_their_order() {
    let data = b"d;1.5\nb;2\na;-3.25\nc;4\nb;5.5\ne;6\na;7\nd;-0.1\n";
    let linear = read_stations_data_slice(data).unwrap();
    let expected: Vec<(String, i64, i64, i128, u64)> = vec![
        ("a".to_string(), -33, 70, 37, 2),
        ("b".to_string(), 20, 55, 75, 2),
        ("c".to_string(), 40, 40, 40, 1),
        ("d".to_string(), -1, 15, 14, 2),
        ("e".to_string(), 60, 60, 60, 1),
    ];
    let listing = |m: &Stations<'_>| -> Vec<(String, i64, i64, i128, u64)> {
        (0..m.len())
            .map(|i| {
                let e = m.entry(i);
                let d = e.data();
                (e.key().to_string(), d.min(), d.max(), d.sum(), d.count())
            })
            .collect()
    };
    assert_eq!(listing(&linear), expected);
    for size in 0..data.len() + 2 {
        let chunked = read_stations_data_chunked(data, size).unwrap();
        assert_eq!(listing(&chunked), expected, "chunk size {}", size);
    }
}
