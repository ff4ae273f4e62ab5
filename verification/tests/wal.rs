use lsm_storage_engine::wal::{Wal, WalEntry};

#[test]
fn test_append_and_recover() {
    let mut wal = Wal::open(Vec::new());

    let entries = vec![
        WalEntry::Put { key: b"k1".to_vec(), value: b"v1".to_vec() },
        WalEntry::Delete { key: b"k2".to_vec() },
    ];

    for entry in &entries {
        wal.append(entry);
    }

    let recovered = Wal::recover(wal.bytes()).unwrap();
    assert_eq!(recovered, entries);
}

#[test]
fn test_append_multiple() {
    let mut wal = Wal::open(Vec::new());

    for i in 0..10u8 {
        wal.append(&WalEntry::Put { key: vec![i], value: vec![i; 10] });
    }

    assert_eq!(wal.bytes().len(), 200);
}

#[test]
fn test_recover_empty() {
    let recovered = Wal::recover(&[]).unwrap();
    assert!(recovered.is_empty());
}

#[test]
fn test_corrupted_entry() {
    let mut wal = Wal::open(Vec::new());
    wal.append(&WalEntry::Put { key: b"ok".to_vec(), value: b"val".to_vec() });
    let mut data = wal.bytes().clone();
    data.extend_from_slice(&[0, 0, 0, 100]);

    let recovered = Wal::recover(&data);
    assert!(recovered.is_err());
}

#[test]
fn test_truncate() {
    let mut wal = Wal::open(Vec::new());
    wal.append(&WalEntry::Put { key: b"k1".to_vec(), value: b"v1".to_vec() });

    wal.truncate();
    let recovered = Wal::recover(wal.bytes()).unwrap();
    assert!(recovered.is_empty());
}

#[test]
fn test_unknown_type_byte_is_corrupt() {
    assert!(Wal::recover(&[7, 0, 0, 0, 0]).is_err());
}

#[test]
fn test_empty_key_is_corrupt() {
    // a put record with key length zero
    assert!(Wal::recover(&[0, 0, 0, 0, 0, 0, 0, 0, 0]).is_err());
}
