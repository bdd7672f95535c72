use riversdb::memtable::MemTable;

#[test]
fn test_table() {
    let mut table = MemTable::new();

    let k1 = b"k1".to_vec();
    let k2 = b"k2".to_vec();
    let k3 = b"k3".to_vec();
    let v1 = b"v1".to_vec();
    let v2 = b"v2".to_vec();
    let v3 = b"v3".to_vec();

    table.put(k2.clone(), v2.clone());

    table.put(k1.clone(), v1);
    assert_eq!(k1, table.entries.first().unwrap().key);

    table.put(k3.clone(), v3);
    assert_eq!(k1, table.entries.first().unwrap().key);

    assert_eq!(v2, table.get(&k2).unwrap().value.clone().unwrap());
}

#[test]
fn put_twice_keeps_one_entry_with_last_value() {
    let mut table = MemTable::new();
    table.put(b"k".to_vec(), b"v1".to_vec());
    table.put(b"k".to_vec(), b"v2".to_vec());
    assert_eq!(table.entries.len(), 1);
    let entry = table.get(&b"k".to_vec()).unwrap();
    assert!(!entry.deleted);
    assert_eq!(entry.value.clone().unwrap(), b"v2".to_vec());
}

#[test]
fn size_counter_moves_as_specified() {
    let mut table = MemTable::new();
    table.put(b"key".to_vec(), b"value".to_vec());
    assert_eq!(table.size, 8);
    table.put(b"key".to_vec(), b"longer".to_vec());
    assert_eq!(table.size, 9);
    table.put(b"key".to_vec(), b"v".to_vec());
    assert_eq!(table.size, 4);
    table.delete(b"key".to_vec());
    assert_eq!(table.size, 0);
    table.delete(b"key".to_vec());
    assert_eq!(table.size, 0);
}

#[test]
fn delete_of_absent_key_leaves_counter_unchanged() {
    let mut table = MemTable::new();
    table.put(b"a".to_vec(), b"bc".to_vec());
    assert_eq!(table.size, 3);
    table.delete(b"missing".to_vec());
    assert_eq!(table.size, 3);
    assert!(table.get(&b"missing".to_vec()).unwrap().deleted);
}

#[test]
fn clear_empties_table_and_counter() {
    let mut table = MemTable::new();
    table.put(b"a".to_vec(), b"1".to_vec());
    table.put(b"b".to_vec(), b"2".to_vec());
    table.clear();
    assert!(table.entries.is_empty());
    assert_eq!(table.size, 0);
    assert!(table.get(&b"a".to_vec()).is_none());
}
