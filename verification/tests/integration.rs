use lsm_storage_engine::engine::{Directory, Engine};

fn fresh(threshold: usize) -> Engine {
    Engine::open(Directory { wal: Vec::new(), tables: Vec::new() }, threshold).unwrap()
}

#[test]
fn test_engine_operations_sequence() {
    let mut engine = fresh(1024);

    engine.put(b"k1".to_vec(), b"v1".to_vec()).unwrap();
    engine.put(b"k2".to_vec(), b"v2".to_vec()).unwrap();

    assert_eq!(engine.get(b"k1").unwrap(), Some(b"v1".to_vec()));
    assert_eq!(engine.get(b"k2").unwrap(), Some(b"v2".to_vec()));

    engine.put(b"k1".to_vec(), b"v1_new".to_vec()).unwrap();
    assert_eq!(engine.get(b"k1").unwrap(), Some(b"v1_new".to_vec()));

    engine.delete(b"k2".to_vec()).unwrap();
    assert_eq!(engine.get(b"k2").unwrap(), None);

    engine.flush().unwrap();
    assert_eq!(engine.get(b"k1").unwrap(), Some(b"v1_new".to_vec()));
    assert_eq!(engine.get(b"k2").unwrap(), None);
}

#[test]
fn test_engine_with_compaction_integration() {
    // a tiny threshold forces many flushes, which trigger compactions
    let mut engine = fresh(20);

    for i in 0..100 {
        let key = format!("k{:03}", i).into_bytes();
        let val = vec![i as u8; 20];
        engine.put(key, val).unwrap();
    }

    for i in 0..100 {
        let key = format!("k{:03}", i).into_bytes();
        let expected = vec![i as u8; 20];
        assert_eq!(engine.get(&key).unwrap(), Some(expected), "Failed at key {}", i);
    }
}

#[test]
fn test_recovery_full_scenario() {
    let dir;
    {
        let mut engine = fresh(50);
        engine.put(b"k1".to_vec(), b"v1".to_vec()).unwrap();
        engine.put(b"k2".to_vec(), b"v2".to_vec()).unwrap();
        engine.delete(b"k3".to_vec()).unwrap();
        dir = engine.directory();
    }

    let engine = Engine::open(dir, 50).unwrap();
    assert_eq!(engine.get(b"k1").unwrap(), Some(b"v1".to_vec()));
    assert_eq!(engine.get(b"k2").unwrap(), Some(b"v2".to_vec()));
    assert_eq!(engine.get(b"k3").unwrap(), None);
}

#[test]
fn test_crash_recovery_from_wal() {
    let dir;
    {
        let mut engine = fresh(1024 * 1024);
        engine.put(b"key1".to_vec(), b"val1".to_vec()).unwrap();
        engine.put(b"key2".to_vec(), b"val2".to_vec()).unwrap();
        // dropped without a flush: the log alone carries the writes
        dir = engine.directory();
    }

    let engine = Engine::open(dir, 1024 * 1024).unwrap();
    assert_eq!(engine.get(b"key1").unwrap(), Some(b"val1".to_vec()));
    assert_eq!(engine.get(b"key2").unwrap(), Some(b"val2".to_vec()));
}

#[test]
fn test_crash_during_flush_simulation() {
    let dir;
    {
        let mut engine = fresh(1024 * 1024);
        engine.put(b"persistent_key".to_vec(), b"old_val".to_vec()).unwrap();
        engine.flush().unwrap();

        engine.put(b"volatile_key".to_vec(), b"new_val".to_vec()).unwrap();
        // dropped before the second write is flushed
        dir = engine.directory();
    }

    let engine = Engine::open(dir, 1024 * 1024).unwrap();
    assert_eq!(engine.get(b"persistent_key").unwrap(), Some(b"old_val".to_vec()));
    assert_eq!(engine.get(b"volatile_key").unwrap(), Some(b"new_val".to_vec()));
}

#[test]
fn test_point_reads_after_open() {
    let mut engine = fresh(1024);
    engine.put(b"user:1".to_vec(), b"Albiere".to_vec()).unwrap();
    assert_eq!(engine.get(b"user:1").unwrap(), Some(b"Albiere".to_vec()));
    engine.delete(b"user:2".to_vec()).unwrap();
    assert_eq!(engine.get(b"user:2").unwrap(), None);
}
