use lsm_storage_engine::engine::{Directory, Engine, TableFile};
use lsm_storage_engine::error::Error;

fn fresh(threshold: usize) -> Engine {
    Engine::open(Directory { wal: Vec::new(), tables: Vec::new() }, threshold).unwrap()
}

#[test]
fn test_put_get_basic() {
    let mut engine = fresh(1024);
    engine.put(b"k1".to_vec(), b"v1".to_vec()).unwrap();
    assert_eq!(engine.get(b"k1").unwrap(), Some(b"v1".to_vec()));
}

#[test]
fn engine_test_get_nonexistent() {
    let engine = fresh(1024);
    assert_eq!(engine.get(b"k1").unwrap(), None);
}

#[test]
fn engine_test_update() {
    let mut engine = fresh(1024);
    engine.put(b"k1".to_vec(), b"v1".to_vec()).unwrap();
    engine.put(b"k1".to_vec(), b"v2".to_vec()).unwrap();
    assert_eq!(engine.get(b"k1").unwrap(), Some(b"v2".to_vec()));
}

#[test]
fn engine_test_delete() {
    let mut engine = fresh(1024);
    engine.put(b"k1".to_vec(), b"v1".to_vec()).unwrap();
    engine.delete(b"k1".to_vec()).unwrap();
    assert_eq!(engine.get(b"k1").unwrap(), None);
}

#[test]
fn engine_test_delete_nonexistent() {
    let mut engine = fresh(1024);
    engine.delete(b"k1".to_vec()).unwrap();
    assert_eq!(engine.get(b"k1").unwrap(), None);
}

#[test]
fn test_flush_trigger() {
    let mut engine = fresh(10);
    engine.put(b"key1".to_vec(), b"val1".to_vec()).unwrap();
    assert_eq!(engine.directory().tables.len(), 0);
    engine.put(b"key2".to_vec(), b"val2".to_vec()).unwrap();
    assert!(engine.directory().tables.len() >= 1);
    assert_eq!(engine.get(b"key1").unwrap(), Some(b"val1".to_vec()));
}

#[test]
fn test_get_after_flush() {
    let mut engine = fresh(10);
    engine.put(b"key1".to_vec(), b"val1".to_vec()).unwrap();
    engine.put(b"key2".to_vec(), b"val2".to_vec()).unwrap();
    assert_eq!(engine.get(b"key1").unwrap(), Some(b"val1".to_vec()));
}

#[test]
fn test_recovery_from_wal() {
    let dir;
    {
        let mut engine = fresh(1024);
        engine.put(b"k1".to_vec(), b"v1".to_vec()).unwrap();
        dir = engine.directory();
        // the engine is dropped without a flush: a simulated crash
    }

    let engine = Engine::open(dir, 1024).unwrap();
    assert_eq!(engine.get(b"k1").unwrap(), Some(b"v1".to_vec()));
}

#[test]
fn test_recovery_with_flush() {
    let dir;
    {
        let mut engine = fresh(10);
        engine.put(b"k1".to_vec(), b"v1".to_vec()).unwrap();
        engine.put(b"k2".to_vec(), b"v2".to_vec()).unwrap();
        dir = engine.directory();
    }

    let engine = Engine::open(dir, 10).unwrap();
    assert_eq!(engine.get(b"k1").unwrap(), Some(b"v1".to_vec()));
    assert_eq!(engine.get(b"k2").unwrap(), Some(b"v2".to_vec()));
}

#[test]
fn test_multiple_sstables_read() {
    let mut engine = fresh(10);

    engine.put(b"k1".to_vec(), b"v1".to_vec()).unwrap();
    engine.put(b"k1_f".to_vec(), b"v".to_vec()).unwrap();

    engine.put(b"k2".to_vec(), b"v2".to_vec()).unwrap();
    engine.put(b"k2_f".to_vec(), b"v".to_vec()).unwrap();

    assert_eq!(engine.get(b"k1").unwrap(), Some(b"v1".to_vec()));
    assert_eq!(engine.get(b"k2").unwrap(), Some(b"v2".to_vec()));
}

#[test]
fn test_tombstone_across_sstables() {
    let mut engine = fresh(10);

    engine.put(b"k1".to_vec(), b"v1".to_vec()).unwrap();
    engine.put(b"f1".to_vec(), b"v".to_vec()).unwrap();

    engine.delete(b"k1".to_vec()).unwrap();
    engine.put(b"f2".to_vec(), b"v".to_vec()).unwrap();

    assert_eq!(engine.get(b"k1").unwrap(), None);
}

#[test]
fn test_tombstone_survives_flush_and_compaction() {
    let mut engine = fresh(1024);
    engine.put(b"k".to_vec(), b"v".to_vec()).unwrap();
    engine.delete(b"k".to_vec()).unwrap();
    engine.flush().unwrap();
    engine.compact().unwrap();
    assert_eq!(engine.get(b"k").unwrap(), None);
}

#[test]
fn test_compact_preserves_mapping() {
    let mut engine = fresh(1024);
    engine.put(b"a".to_vec(), b"1".to_vec()).unwrap();
    engine.flush().unwrap();
    engine.put(b"a".to_vec(), b"2".to_vec()).unwrap();
    engine.put(b"b".to_vec(), b"3".to_vec()).unwrap();
    engine.flush().unwrap();

    let before_a = engine.get(b"a").unwrap();
    let before_b = engine.get(b"b").unwrap();
    engine.compact().unwrap();
    assert_eq!(engine.get(b"a").unwrap(), before_a);
    assert_eq!(engine.get(b"b").unwrap(), before_b);
    assert_eq!(engine.directory().tables.len(), 1);
}

#[test]
fn test_open_rejects_corrupt_log() {
    let d = Directory { wal: vec![9, 9, 9], tables: Vec::new() };
    assert_eq!(Engine::open(d, 1024).err(), Some(Error::CorruptLog));
}

#[test]
fn test_open_rejects_corrupt_table() {
    let d = Directory {
        wal: Vec::new(),
        tables: vec![TableFile { id: 1, bytes: vec![0u8; 40] }],
    };
    assert_eq!(Engine::open(d, 1024).err(), Some(Error::CorruptTable));
}
