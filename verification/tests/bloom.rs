use lsm_storage_engine::bloom::BloomFilter;

#[test]
fn test_bloom_add_contains() {
    let mut bf = BloomFilter::new(100);
    bf.add(b"key1");
    bf.add(b"key2");
    assert!(bf.contains(b"key1"));
    assert!(bf.contains(b"key2"));
}

#[test]
fn test_bloom_false_negative() {
    let mut bf = BloomFilter::new(1000);
    for i in 0..100 {
        let key = format!("key{}", i).into_bytes();
        bf.add(&key);
        assert!(bf.contains(&key), "False negative for key{}", i);
    }
}

#[test]
fn test_bloom_false_positive_rate() {
    let mut bf = BloomFilter::new(1000);
    for i in 0..1000 {
        bf.add(format!("key{}", i).as_bytes());
    }

    let mut fps = 0;
    for i in 1000..2000 {
        if bf.contains(format!("key{}", i).as_bytes()) {
            fps += 1;
        }
    }
    let rate = fps as f64 / 1000.0;
    assert!(rate <= 0.05, "False positive rate too high: {}", rate);
}

#[test]
fn test_bloom_serialization() {
    let mut bf = BloomFilter::new(100);
    bf.add(b"bloom");
    let data = bf.serialize();
    let bf2 = BloomFilter::deserialize(&data).unwrap();
    assert!(bf2.contains(b"bloom"));
    assert!(!bf2.contains(b"not-bloom"));
}

#[test]
fn test_bloom_empty() {
    let bf = BloomFilter::new(100);
    assert!(!bf.contains(b"anything"));
}

#[test]
fn test_bloom_deserialize_rejects_short_input() {
    assert!(BloomFilter::deserialize(&[1, 2, 3]).is_none());
}

#[test]
fn test_bloom_deserialize_rejects_mismatched_bit_count() {
    let bf = BloomFilter::new(100);
    let mut data = bf.serialize();
    data.push(0);
    assert!(BloomFilter::deserialize(&data).is_none());
}
