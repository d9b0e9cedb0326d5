use station_stats::bytes::{find, DELIMITER, NEWLINE};
use station_stats::chunk::{slice, SLICE_SIZE};

#[test]
fn default_chunk_size() {
    assert_eq!(SLICE_SIZE, 65536);
    assert_eq!(NEWLINE, b'\n');
    assert_eq!(DELIMITER, b';');
}

#[test]
fn empty_input_has_no_chunks() {
    assert!(slice(b"", 0).is_empty());
    assert!(slice(b"", 8).is_empty());
}

#[test]
fn chunks_end_after_the_first_newline_past_the_size() {
    let data = b"aa;1\nbb;2\ncc;3\ndd;4";
    let chunks = slice(data, 6);
    assert_eq!(chunks, vec![&b"aa;1\nbb;2\n"[..], &b"cc;3\ndd;4"[..]]);
    let chunks = slice(data, 4);
    assert_eq!(chunks, vec![&b"aa;1\n"[..], &b"bb;2\n"[..], &b"cc;3\n"[..], &b"dd;4"[..]]);
    let chunks = slice(data, 5);
    assert_eq!(chunks, vec![&b"aa;1\nbb;2\n"[..], &b"cc;3\ndd;4"[..]]);
}

#[test]
fn chunk_size_zero_gives_one_record_per_chunk() {
    let chunks = slice(b"a;1\nb;2\n\nc;3\n", 0);
    assert_eq!(chunks, vec![&b"a;1\n"[..], &b"b;2\n"[..], &b"\n"[..], &b"c;3\n"[..]]);
}

#[test]
fn large_chunk_size_gives_one_chunk() {
    let data = b"a;1\nb;2\n";
    assert_eq!(slice(data, 8), vec![&data[..]]);
    assert_eq!(slice(data, 1000), vec![&data[..]]);
    assert_eq!(slice(data, usize::MAX), vec![&data[..]]);
    assert_eq!(slice(data, SLICE_SIZE), vec![&data[..]]);
}

#[test]
fn chunks_cover_the_input_and_split_no_record() {
    let data = b"Paris;12.3\nLondon;9.5\n\nParis;15.0\nOslo;-3.4\nLondon;10.5\nOslo;-7.0\nParis;0.1";
    for size in 0..data.len() + 2 {
        let chunks = slice(data, size);
        let joined: Vec<u8> = chunks.iter().flat_map(|c| c.iter().copied()).collect();
        assert_eq!(joined, data);
        for (i, chunk) in chunks.iter().enumerate() {
            assert!(!chunk.is_empty());
            if i + 1 < chunks.len() {
                assert_eq!(*chunk.last().unwrap(), b'\n');
                assert!(chunk.len() > size);
                assert!(!chunk[size..chunk.len() - 1].contains(&b'\n'));
            }
        }
    }
}

#[test]
fn find_gives_the_first_place_or_the_length() {
    assert_eq!(find(b"ab;cd;e", 0, b';'), 2);
    assert_eq!(find(b"ab;cd;e", 2, b';'), 2);
    assert_eq!(find(b"ab;cd;e", 3, b';'), 5);
    assert_eq!(find(b"ab;cd;e", 6, b';'), 7);
    assert_eq!(find(b"ab;cd;e", 7, b';'), 7);
    assert_eq!(find(b"", 0, b';'), 0);
}
