use riversdb::models::Entry;
use riversdb::result::RiversError;
use riversdb::wal::{encode_entry, segment_file_name, WALIterator, WAL};

#[test]
fn test_wal_single() {
    let mut wal = WAL::new();
    let entry = Entry::new(b"key1".to_vec(), b"key2".to_vec());
    wal.put(&entry);
    let bytes = wal.flush();

    let mut wal_iter = WALIterator::new(bytes);
    assert_eq!(entry, wal_iter.next().unwrap());
}

#[test]
fn test_wal_multiple() {
    let mut wal = WAL::new();
    let mut file: Vec<u8> = Vec::new();

    let mut entries = vec![];
    for i in 0..100 {
        let entry = if i % 3 == 0 {
            Entry::new(format!("key{i}").into_bytes(), format!("key{i}").into_bytes())
        } else {
            Entry::deleted(format!("key{i}").into_bytes())
        };
        entries.push(entry.clone());
        wal.put(&entry);
        if i % 5 == 0 {
            file.extend(wal.flush());
        }
    }

    file.extend(wal.flush());

    let mut wal_iter = WALIterator::new(file);
    for entry in entries {
        let wal_entry = wal_iter.next().unwrap();
        assert_eq!(wal_entry, entry);
    }
    assert!(wal_iter.next().is_none());
    assert!(wal_iter.err.is_none());
}

#[test]
fn encode_live_record_exact_layout() {
    let e = Entry { key: b"ab".to_vec(), value: Some(b"xyz".to_vec()), timestamp: 7, deleted: false };
    let enc = encode_entry(&e);
    let mut expected: Vec<u8> = vec![2, 0, 0, 0, 0, 0, 0, 0];
    expected.push(0);
    expected.extend_from_slice(&[3, 0, 0, 0, 0, 0, 0, 0]);
    expected.extend_from_slice(b"ab");
    expected.extend_from_slice(b"xyz");
    let mut ts = [0u8; 16];
    ts[0] = 7;
    expected.extend_from_slice(&ts);
    assert_eq!(enc, expected);
}

#[test]
fn encode_tombstone_exact_layout() {
    let e = Entry { key: b"gone".to_vec(), value: None, timestamp: 258, deleted: true };
    let enc = encode_entry(&e);
    let mut expected: Vec<u8> = vec![4, 0, 0, 0, 0, 0, 0, 0];
    expected.push(1);
    expected.extend_from_slice(b"gone");
    let mut ts = [0u8; 16];
    ts[0] = 2;
    ts[1] = 1;
    expected.extend_from_slice(&ts);
    assert_eq!(enc, expected);
}

#[test]
fn round_trip_entries() {
    let cases = vec![
        Entry { key: vec![], value: Some(vec![]), timestamp: 0, deleted: false },
        Entry { key: b"k".to_vec(), value: Some(b"v".to_vec()), timestamp: u128::MAX, deleted: false },
        Entry { key: b"tomb".to_vec(), value: None, timestamp: 12345, deleted: true },
        Entry { key: vec![], value: None, timestamp: 1, deleted: true },
        Entry { key: vec![0, 255, 1], value: Some(vec![9; 1000]), timestamp: 1, deleted: false },
    ];
    for e in cases {
        let bytes = encode_entry(&e);
        let mut it = WALIterator::new(bytes);
        assert_eq!(it.next().unwrap(), e);
        assert!(it.next().is_none());
        assert!(it.err.is_none());
    }
}

#[test]
fn empty_stream_is_clean_end() {
    let mut it = WALIterator::new(Vec::new());
    assert!(it.next().is_none());
    assert!(it.err.is_none());
}

#[test]
fn every_truncation_of_live_record_is_corrupt() {
    let e = Entry { key: b"key".to_vec(), value: Some(b"value".to_vec()), timestamp: 42, deleted: false };
    let enc = encode_entry(&e);
    for cut in 1..enc.len() {
        let mut it = WALIterator::new(enc[..cut].to_vec());
        assert!(it.next().is_none(), "cut at {cut} yielded a record");
        assert!(
            matches!(it.err, Some(RiversError::WalErr { .. })),
            "cut at {cut} was not reported corrupt"
        );
    }
}

#[test]
fn every_truncation_of_tombstone_is_corrupt() {
    let e = Entry { key: b"key".to_vec(), value: None, timestamp: 42, deleted: true };
    let enc = encode_entry(&e);
    for cut in 1..enc.len() {
        let mut it = WALIterator::new(enc[..cut].to_vec());
        assert!(it.next().is_none());
        assert!(matches!(it.err, Some(RiversError::WalErr { .. })));
    }
}

#[test]
fn iterator_stops_at_corrupt_tail_after_good_records() {
    let good = Entry::new(b"a".to_vec(), b"1".to_vec());
    let mut bytes = encode_entry(&good);
    bytes.extend_from_slice(&[5, 0, 0]);
    let mut it = WALIterator::new(bytes);
    assert_eq!(it.next().unwrap(), good);
    assert!(it.next().is_none());
    assert!(matches!(it.err, Some(RiversError::WalErr { .. })));
}

#[test]
fn segment_file_name_digits_and_extension() {
    assert_eq!(segment_file_name(0), b"0.rvr".to_vec());
    assert_eq!(segment_file_name(1234), b"1234.rvr".to_vec());
    assert_eq!(segment_file_name(u64::MAX), b"18446744073709551615.rvr".to_vec());
}

#[test]
fn wal_err_carries_message() {
    match RiversError::wal_err("boom") {
        RiversError::WalErr { msg } => assert_eq!(msg, "boom"),
        _ => panic!("expected WalErr"),
    }
}
