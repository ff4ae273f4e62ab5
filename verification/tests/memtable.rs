use lsm_storage_engine::memtable::{Entry, MemTable};

#[test]
fn test_put_get() {
    let mut mt = MemTable::new(1024);
    mt.put(b"key1".to_vec(), b"value1".to_vec());
    match mt.get(b"key1") {
        Some(Entry::Value(v)) => assert_eq!(v, b"value1"),
        _ => panic!("Expected value1"),
    }
}

#[test]
fn memtable_test_update() {
    let mut mt = MemTable::new(1024);
    mt.put(b"key1".to_vec(), b"value1".to_vec());
    mt.put(b"key1".to_vec(), b"value2".to_vec());
    match mt.get(b"key1") {
        Some(Entry::Value(v)) => assert_eq!(v, b"value2"),
        _ => panic!("Expected value2"),
    }
}

#[test]
fn memtable_test_delete() {
    let mut mt = MemTable::new(1024);
    mt.put(b"key1".to_vec(), b"value1".to_vec());
    mt.delete(b"key1".to_vec());
    match mt.get(b"key1") {
        Some(Entry::Tombstone) => (),
        _ => panic!("Expected tombstone"),
    }
}

#[test]
fn memtable_test_delete_nonexistent() {
    let mut mt = MemTable::new(1024);
    let _initial_size = mt.approximate_size();
    mt.delete(b"nonexistent".to_vec());
    // A tombstone is recorded even for an absent key: the key may still exist
    // in older sorted tables and must be shadowed there.
    match mt.get(b"nonexistent") {
        Some(Entry::Tombstone) => (),
        _ => panic!("Expected tombstone"),
    }
}

#[test]
fn test_ordering() {
    let mut mt = MemTable::new(1024);
    mt.put(b"z".to_vec(), b"v1".to_vec());
    mt.put(b"a".to_vec(), b"v2".to_vec());
    mt.put(b"m".to_vec(), b"v3".to_vec());
    let keys: Vec<Vec<u8>> = mt.iter().iter().map(|(k, _)| k.clone()).collect();
    assert_eq!(keys, vec![b"a".to_vec(), b"m".to_vec(), b"z".to_vec()]);
}

#[test]
fn test_size_tracking() {
    let mut mt = MemTable::new(1024);
    mt.put(b"key1".to_vec(), b"val1".to_vec());
    assert_eq!(mt.approximate_size(), 8);
    mt.put(b"key2".to_vec(), b"val2".to_vec());
    assert_eq!(mt.approximate_size(), 16);
}

#[test]
fn test_full_threshold() {
    let mut mt = MemTable::new(10);
    mt.put(b"k1".to_vec(), b"v1".to_vec());
    assert!(!mt.is_full());
    mt.put(b"k2".to_vec(), b"v2".to_vec());
    assert!(!mt.is_full());
    mt.put(b"k3".to_vec(), b"v3".to_vec());
    assert!(mt.is_full());
}

#[test]
fn test_tombstone_size() {
    let mut mt = MemTable::new(1024);
    mt.put(b"key1".to_vec(), b"value1".to_vec());
    let size_before = mt.approximate_size();
    mt.delete(b"key1".to_vec());
    let size_after = mt.approximate_size();
    assert_eq!(size_after, size_before - 6);
}

#[test]
fn test_iter_empty() {
    let mt = MemTable::new(1024);
    assert_eq!(mt.iter().len(), 0);
}

#[test]
fn test_iter_with_tombstones() {
    let mut mt = MemTable::new(1024);
    mt.put(b"k1".to_vec(), b"v1".to_vec());
    mt.delete(b"k2".to_vec());
    let items = mt.iter();
    assert_eq!(items.len(), 2);
    assert_eq!(items[0].1, Entry::Value(b"v1".to_vec()));
    assert_eq!(items[1].1, Entry::Tombstone);
}

#[test]
fn test_clear_resets_everything() {
    let mut mt = MemTable::new(1024);
    mt.put(b"k1".to_vec(), b"v1".to_vec());
    mt.clear();
    assert_eq!(mt.approximate_size(), 0);
    assert!(mt.get(b"k1").is_none());
}

#[test]
fn test_update_replaces_tombstone_size() {
    let mut mt = MemTable::new(1024);
    mt.delete(b"key1".to_vec());
    assert_eq!(mt.approximate_size(), 4);
    mt.put(b"key1".to_vec(), b"val".to_vec());
    assert_eq!(mt.approximate_size(), 7);
}
