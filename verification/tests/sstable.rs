use lsm_storage_engine::memtable::{Entry, MemTable};
use lsm_storage_engine::sstable::{SSTable, SSTableBuilder};

fn table_from(mt: &MemTable, interval: usize) -> SSTable {
    let builder = SSTableBuilder::new(interval);
    let (bytes, _meta) = builder.build(mt);
    SSTable::open(1, bytes).unwrap()
}

#[test]
fn test_build_and_get() {
    let mut mt = MemTable::new(1024);
    mt.put(b"k1".to_vec(), b"v1".to_vec());
    mt.put(b"k2".to_vec(), b"v2".to_vec());

    let sst = table_from(&mt, 1);
    assert_eq!(sst.get(b"k1").unwrap(), Some(b"v1".to_vec()));
    assert_eq!(sst.get(b"k2").unwrap(), Some(b"v2".to_vec()));
}

#[test]
fn sstable_test_get_nonexistent() {
    let mut mt = MemTable::new(1024);
    mt.put(b"k1".to_vec(), b"v1".to_vec());

    let sst = table_from(&mt, 1);
    assert_eq!(sst.get(b"k2").unwrap(), None);
}

#[test]
fn test_index_lookup() {
    let mut mt = MemTable::new(1024);
    for i in 0..10u8 {
        mt.put(vec![i], vec![i]);
    }

    let sst = table_from(&mt, 5);
    assert_eq!(sst.get(&[0]).unwrap(), Some(vec![0]));
    assert_eq!(sst.get(&[3]).unwrap(), Some(vec![3]));
    assert_eq!(sst.get(&[9]).unwrap(), Some(vec![9]));
}

#[test]
fn test_multiple_blocks() {
    let mut mt = MemTable::new(10000);
    for i in 0..100 {
        mt.put(format!("k{:03}", i).into_bytes(), vec![i as u8; 10]);
    }

    let sst = table_from(&mt, 10);
    assert_eq!(sst.get(b"k050").unwrap(), Some(vec![50; 10]));
    assert_eq!(sst.get(b"k099").unwrap(), Some(vec![99; 10]));
}

#[test]
fn test_tombstone_in_sstable() {
    let mut mt = MemTable::new(1024);
    mt.delete(b"k1".to_vec());

    let sst = table_from(&mt, 1);
    assert_eq!(sst.get(b"k1").unwrap(), None);
}

#[test]
fn test_bloom_filter_integration() {
    let mut mt = MemTable::new(1024);
    mt.put(b"exist".to_vec(), b"val".to_vec());

    let sst = table_from(&mt, 1);
    assert_eq!(sst.get(b"exist").unwrap(), Some(b"val".to_vec()));
    assert_eq!(sst.get(b"absent").unwrap(), None);
}

#[test]
fn test_iter_yields_records_in_order() {
    let mut mt = MemTable::new(1024);
    mt.put(b"b".to_vec(), b"2".to_vec());
    mt.put(b"a".to_vec(), b"1".to_vec());
    mt.delete(b"c".to_vec());

    let sst = table_from(&mt, 2);
    let mut it = sst.iter();
    assert_eq!(it.next(), Some((b"a".to_vec(), Entry::Value(b"1".to_vec()))));
    assert_eq!(it.next(), Some((b"b".to_vec(), Entry::Value(b"2".to_vec()))));
    assert_eq!(it.next(), Some((b"c".to_vec(), Entry::Tombstone)));
    assert_eq!(it.next(), None);
}

#[test]
fn test_open_rejects_corrupted_checksum() {
    let mut mt = MemTable::new(1024);
    mt.put(b"k1".to_vec(), b"v1".to_vec());
    let builder = SSTableBuilder::new(1);
    let (mut bytes, _meta) = builder.build(&mt);
    // flip one data byte; the stored checksum no longer matches
    bytes[0] ^= 0xFF;
    assert!(SSTable::open(1, bytes).is_err());
}

#[test]
fn test_open_rejects_truncated_file() {
    assert!(SSTable::open(1, vec![0u8; 10]).is_err());
}

#[test]
fn test_metadata_first_and_last_key() {
    let mut mt = MemTable::new(1024);
    mt.put(b"alpha".to_vec(), b"1".to_vec());
    mt.put(b"omega".to_vec(), b"2".to_vec());
    let builder = SSTableBuilder::new(1);
    let (_bytes, meta) = builder.build(&mt);
    assert_eq!(meta.first_key, b"alpha".to_vec());
    assert_eq!(meta.last_key, b"omega".to_vec());
}
