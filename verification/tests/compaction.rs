use lsm_storage_engine::compaction::compact;
use lsm_storage_engine::memtable::MemTable;
use lsm_storage_engine::sstable::{SSTable, SSTableBuilder};

fn table_from(mt: &MemTable, id: u64) -> SSTable {
    let builder = SSTableBuilder::new(1);
    let (bytes, _meta) = builder.build(mt);
    SSTable::open(id, bytes).unwrap()
}

#[test]
fn test_compact_merge() {
    let mut mt1 = MemTable::new(1024);
    mt1.put(b"k1".to_vec(), b"v1_old".to_vec());
    mt1.put(b"k2".to_vec(), b"v2".to_vec());
    let sst1 = table_from(&mt1, 1);

    let mut mt2 = MemTable::new(1024);
    mt2.put(b"k1".to_vec(), b"v1_new".to_vec());
    let sst2 = table_from(&mt2, 2);

    // newest first: sst2 shadows sst1
    let out = compact(&vec![sst2, sst1]).unwrap();
    assert!(out.len() >= 36);

    let compacted = SSTable::open(3, out).unwrap();
    assert_eq!(compacted.get(b"k1").unwrap(), Some(b"v1_new".to_vec()));
    assert_eq!(compacted.get(b"k2").unwrap(), Some(b"v2".to_vec()));
}

#[test]
fn test_compact_remove_tombstone() {
    let mut mt1 = MemTable::new(1024);
    mt1.put(b"k1".to_vec(), b"v1".to_vec());
    let sst1 = table_from(&mt1, 1);

    let mut mt2 = MemTable::new(1024);
    mt2.delete(b"k1".to_vec());
    let sst2 = table_from(&mt2, 2);

    let out = compact(&vec![sst2, sst1]).unwrap();
    let compacted = SSTable::open(3, out).unwrap();
    assert_eq!(compacted.get(b"k1").unwrap(), None);
}

#[test]
fn test_compact_no_duplicates() {
    let mut mt1 = MemTable::new(1024);
    mt1.put(b"a".to_vec(), b"1".to_vec());
    let sst1 = table_from(&mt1, 1);

    let mut mt2 = MemTable::new(1024);
    mt2.put(b"b".to_vec(), b"2".to_vec());
    let sst2 = table_from(&mt2, 2);

    let out = compact(&vec![sst1, sst2]).unwrap();
    let compacted = SSTable::open(3, out).unwrap();
    let mut count = 0;
    let mut iter = compacted.iter();
    while let Some(_) = iter.next() {
        count += 1;
    }
    assert_eq!(count, 2);
}

#[test]
fn test_compact_empty_sstables() {
    assert!(compact(&Vec::new()).is_none());
}

#[test]
fn test_compact_keeps_newest_of_three() {
    let mut mt1 = MemTable::new(1024);
    mt1.put(b"k".to_vec(), b"oldest".to_vec());
    let mut mt2 = MemTable::new(1024);
    mt2.put(b"k".to_vec(), b"middle".to_vec());
    let mut mt3 = MemTable::new(1024);
    mt3.put(b"k".to_vec(), b"newest".to_vec());

    let out = compact(&vec![
        table_from(&mt3, 3),
        table_from(&mt2, 2),
        table_from(&mt1, 1),
    ])
    .unwrap();
    let compacted = SSTable::open(4, out).unwrap();
    assert_eq!(compacted.get(b"k").unwrap(), Some(b"newest".to_vec()));
}
