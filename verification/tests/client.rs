use riversdb::client::{order_segment_files, Rivers};
use riversdb::models::{DeleteRequest, GetRequest, GetResponse, PutRequest, PutResponse};
use riversdb::result::RiversError;

fn put(store: &mut Rivers, key: &[u8], value: &[u8]) {
    let resp = store.put(PutRequest { key: key.to_vec(), value: value.to_vec() });
    assert!(matches!(resp, PutResponse::Success));
}

fn get(store: &Rivers, key: &[u8], segments: &Vec<Vec<u8>>) -> GetResponse {
    store.get(GetRequest { key: key.to_vec() }, segments)
}

#[test]
fn durability_round_trip() {
    let mut store = Rivers::new();
    put(&mut store, b"hello", b"world");

    let none: Vec<Vec<u8>> = Vec::new();
    match get(&store, b"hello", &none) {
        GetResponse::Success { entry } => {
            assert!(!entry.deleted);
            assert_eq!(entry.value.unwrap(), b"world".to_vec());
        },
        _ => panic!("expected found from the memtable"),
    }

    let segment = store.take_pending();
    drop(store);

    let fresh = Rivers::new();
    match get(&fresh, b"hello", &vec![segment]) {
        GetResponse::Success { entry } => {
            assert!(!entry.deleted);
            assert_eq!(entry.value.unwrap(), b"world".to_vec());
        },
        _ => panic!("expected found from the segment after a restart"),
    }
}

#[test]
fn absent_key_is_not_an_error() {
    let store = Rivers::new();
    let none: Vec<Vec<u8>> = Vec::new();
    assert!(matches!(get(&store, b"missing", &none), GetResponse::DoesNotExist));
}

#[test]
fn tombstone_is_found_not_absent() {
    let mut store = Rivers::new();
    put(&mut store, b"k", b"v");
    store.delete(DeleteRequest { key: b"k".to_vec() });
    let none: Vec<Vec<u8>> = Vec::new();
    match get(&store, b"k", &none) {
        GetResponse::Success { entry } => {
            assert!(entry.deleted);
            assert!(entry.value.is_none());
        },
        _ => panic!("a tombstone is a found result, not absence"),
    }
}

#[test]
fn threshold_rotation_clears_memtable_and_keeps_data_readable() {
    let mut store = Rivers::new();
    let mut segment: Vec<u8> = Vec::new();
    let value = vec![7u8; 500_000];

    let mut i: u32 = 0;
    while !store.rotation_needed() {
        assert!(i < 100, "threshold never tripped");
        let key = format!("key{i}").into_bytes();
        let resp = store.put(PutRequest { key, value: value.clone() });
        assert!(matches!(resp, PutResponse::Success));
        segment.extend(store.take_pending());
        i += 1;
    }

    segment.extend(store.rotate());
    assert_eq!(store.memtable.size, 0);
    assert!(store.memtable.entries.is_empty());

    match get(&store, b"key0", &vec![segment]) {
        GetResponse::Success { entry } => {
            assert_eq!(entry.value.unwrap(), value);
        },
        _ => panic!("a pre-rotation key must remain retrievable through the segment"),
    }
}

#[test]
fn oldest_segment_wins_across_segments() {
    let mut store = Rivers::new();
    put(&mut store, b"k", b"old");
    let seg1 = store.take_pending();
    put(&mut store, b"k", b"new");
    let seg2 = store.take_pending();

    let fresh = Rivers::new();
    match get(&fresh, b"k", &vec![seg1, seg2]) {
        GetResponse::Success { entry } => {
            assert_eq!(entry.value.unwrap(), b"old".to_vec());
        },
        _ => panic!("expected a match from the oldest segment"),
    }
}

#[test]
fn corrupt_segment_surfaces_error_not_absence() {
    let mut store = Rivers::new();
    put(&mut store, b"k", b"v");
    let seg = store.take_pending();
    let truncated = seg[..seg.len() - 1].to_vec();

    let fresh = Rivers::new();
    match get(&fresh, b"other", &vec![truncated]) {
        GetResponse::Error { err } => assert!(matches!(err, RiversError::WalErr { .. })),
        _ => panic!("corruption must surface as an error, never as absence"),
    }
}

#[test]
fn match_before_corrupt_tail_still_returns() {
    let mut store = Rivers::new();
    put(&mut store, b"k", b"v");
    let mut seg = store.take_pending();
    seg.extend_from_slice(&[9, 9, 9]);

    let fresh = Rivers::new();
    match get(&fresh, b"k", &vec![seg]) {
        GetResponse::Success { entry } => assert_eq!(entry.value.unwrap(), b"v".to_vec()),
        _ => panic!("a match found before the corrupt tail is returned"),
    }
}

#[test]
fn memtable_answers_before_segments() {
    let mut store = Rivers::new();
    put(&mut store, b"k", b"old");
    let seg1 = store.take_pending();
    let mut fresh = Rivers::new();
    put(&mut fresh, b"k", b"mem");
    match get(&fresh, b"k", &vec![seg1]) {
        GetResponse::Success { entry } => assert_eq!(entry.value.unwrap(), b"mem".to_vec()),
        _ => panic!("the memtable answers first"),
    }
}

#[test]
fn segment_files_are_filtered_and_sorted() {
    let names: Vec<Vec<u8>> = vec![
        b"20.rvr".to_vec(),
        b"10.rvr".to_vec(),
        b"junk.txt".to_vec(),
        b"README".to_vec(),
        b".rvr".to_vec(),
        b"15.rvr".to_vec(),
    ];
    let ordered = order_segment_files(names);
    let expected: Vec<Vec<u8>> = vec![b"10.rvr".to_vec(), b"15.rvr".to_vec(), b"20.rvr".to_vec()];
    assert_eq!(ordered, expected);
}
