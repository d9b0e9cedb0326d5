use station_stats::record::process_record;
use station_stats::scan::read_stations_data_slice;
use station_stats::merge::merge;
use station_stats::stations::Stations;
use station_stats::stats::StationData;
use station_stats::text::{order_bytes, order_text, text_of, KeyOrder};

fn listing(m: &Stations<'_>) -> Vec<(String, i64, i64, i128, u64)> {
    let mut out = Vec::new();
    for i in 0..m.len() {
        let e = m.entry(i);
        let d = e.data();
        out.push((e.key().to_string(), d.min(), d.max(), d.sum(), d.count()));
    }
    out.sort();
    out
}

#[test]
fn station_data_starts_with_one_observation() {
    let d = StationData::new(-12);
    assert_eq!((d.min(), d.max(), d.sum(), d.count()), (-12, -12, -12, 1));
}

#[test]
fn station_data_observe_and_merge() {
    let mut d = StationData::new(10);
    d.observe(-5);
    d.observe(30);
    assert_eq!((d.min(), d.max(), d.sum(), d.count()), (-5, 30, 35, 3));
    let mut other = StationData::new(-7);
    other.observe(100);
    d.merge(&other);
    assert_eq!((d.min(), d.max(), d.sum(), d.count()), (-7, 100, 128, 5));
}

#[test]
fn station_data_extremes() {
    let mut d = StationData::new(i64::MAX);
    d.observe(i64::MAX);
    d.observe(i64::MIN);
    assert_eq!(d.min(), i64::MIN);
    assert_eq!(d.max(), i64::MAX);
    assert_eq!(d.sum(), i64::MAX as i128 * 2 + i64::MIN as i128);
    assert_eq!(d.count(), 3);
}

#[test]
fn merge_combines_shared_keys_and_keeps_the_others() {
    let a = read_stations_data_slice(b"x;1.0\ny;2.0\nx;3.0\n").unwrap();
    let b = read_stations_data_slice(b"y;-4.0\nz;5.0\n").unwrap();
    let m = merge(a, &b);
    assert_eq!(
        listing(&m),
        vec![
            ("x".to_string(), 10, 30, 40, 2),
            ("y".to_string(), -40, 20, -20, 2),
            ("z".to_string(), 50, 50, 50, 1),
        ]
    );
}

#[test]
fn merge_with_empty_changes_nothing() {
    let a = read_stations_data_slice(b"x;1.0\ny;2.0\n").unwrap();
    let before = listing(&a);
    let m = merge(a, &Stations::new());
    assert_eq!(listing(&m), before);
    let a = read_stations_data_slice(b"x;1.0\ny;2.0\n").unwrap();
    let m = merge(Stations::new(), &a);
    assert_eq!(listing(&m), before);
}

#[test]
fn merge_is_associative_and_commutative_on_an_example() {
    let a = || read_stations_data_slice(b"x;1.0\ny;2.0\nx;3.0\n").unwrap();
    let b = || read_stations_data_slice(b"y;-4.0\nz;5.0\n").unwrap();
    let c = || read_stations_data_slice(b"z;0.5\nx;-9.9\nw;1.1\n").unwrap();
    let left = merge(merge(a(), &b()), &c());
    let right = merge(a(), &merge(b(), &c()));
    assert_eq!(listing(&left), listing(&right));
    assert_eq!(listing(&merge(a(), &b())), listing(&merge(b(), &a())));
    assert_eq!(
        listing(&left),
        vec![
            ("w".to_string(), 11, 11, 11, 1),
            ("x".to_string(), -99, 30, -59, 3),
            ("y".to_string(), -40, 20, -20, 2),
            ("z".to_string(), 5, 50, 55, 2),
        ]
    );
}

#[test]
fn merge_equals_scanning_the_joined_input() {
    let a = read_stations_data_slice(b"x;1.0\ny;2.0\nx;3.0\n").unwrap();
    let b = read_stations_data_slice(b"y;-4.0\nz;5.0").unwrap();
    let whole = read_stations_data_slice(b"x;1.0\ny;2.0\nx;3.0\ny;-4.0\nz;5.0").unwrap();
    assert_eq!(listing(&merge(a, &b)), listing(&whole));
}

#[test]
fn observe_and_fold_on_a_mapping() {
    let mut m = Stations::new();
    m.observe("a", 10);
    m.observe("b", 20);
    m.observe("a", -10);
    assert_eq!(m.len(), 2);
    assert_eq!(m.entry(0).key(), "a");
    assert_eq!(m.entry(1).key(), "b");
    let mut d = StationData::new(100);
    d.observe(200);
    m.fold("b", &d);
    m.fold("c", &d);
    assert_eq!(
        listing(&m),
        vec![
            ("a".to_string(), -10, 10, 0, 2),
            ("b".to_string(), 20, 200, 320, 3),
            ("c".to_string(), 100, 200, 300, 2),
        ]
    );
}

#[test]
fn process_record_folds_or_leaves_the_mapping() {
    let mut m = Stations::new();
    assert!(process_record(b"a;1.5", &mut m).is_ok());
    assert!(process_record(b"a;2.5", &mut m).is_ok());
    assert!(process_record(b"a;oops", &mut m).is_err());
    assert!(process_record(b"a", &mut m).is_err());
    assert_eq!(listing(&m), vec![("a".to_string(), 15, 25, 40, 2)]);
}

#[test]
fn text_of_tells_text_from_other_bytes() {
    assert_eq!(text_of(b"Z\xc3\xbcrich"), Some("Z\u{fc}rich"));
    assert_eq!(text_of(b""), Some(""));
    assert_eq!(text_of(&[0x80]), None);
    assert_eq!(text_of(&[0xe2, 0x82]), None);
    assert_eq!(text_of(&[0xed, 0xa0, 0x80]), None);
}

#[test]
fn keys_are_ordered_by_their_bytes() {
    assert_eq!(order_bytes(b"abc", b"abc"), KeyOrder::Same);
    assert_eq!(order_bytes(b"abc", b"abd"), KeyOrder::Before);
    assert_eq!(order_bytes(b"abd", b"abc"), KeyOrder::After);
    assert_eq!(order_bytes(b"ab", b"abc"), KeyOrder::Before);
    assert_eq!(order_bytes(b"abc", b"ab"), KeyOrder::After);
    assert_eq!(order_bytes(b"", b""), KeyOrder::Same);
    assert_eq!(order_bytes(b"", b"a"), KeyOrder::Before);
    assert_eq!(order_text("London", "Paris"), KeyOrder::Before);
    assert_eq!(order_text("Paris", "London"), KeyOrder::After);
    assert_eq!(order_text("Paris", "Paris"), KeyOrder::Same);
    assert_eq!(order_text("Z", "a"), KeyOrder::Before);
    assert_eq!(order_text("z", "\u{e9}"), KeyOrder::Before);
}

#[test]
fn entries_stand_in_the_order_of_their_keys() {
    let m = read_stations_data_slice(b"d;1\nb;2\na;3\nc;4\nb;5\ne;6\na;7\n").unwrap();
    let keys: Vec<&str> = (0..m.len()).map(|i| m.entry(i).key()).collect();
    assert_eq!(keys, vec!["a", "b", "c", "d", "e"]);
    let a = read_stations_data_slice(b"x;1\nm;2\n").unwrap();
    let b = read_stations_data_slice(b"n;1\na;2\nz;3\nm;4\n").unwrap();
    let m = merge(a, &b);
    let keys: Vec<&str> = (0..m.len()).map(|i| m.entry(i).key()).collect();
    assert_eq!(keys, vec!["a", "m", "n", "x", "z"]);
}
