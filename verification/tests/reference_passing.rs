use alloyfang::reference_passing::{BufferError, SharedBufferPool};
use bytes::Bytes;

#[test]
fn test_put_and_get() {
    let mut pool = SharedBufferPool::new(1024);
    let data = Bytes::from_static(b"hello world");
    pool.put("slot_a", data.clone(), 42).unwrap();

    let buf = pool.get("slot_a").unwrap();
    assert_eq!(buf.data, data);
    assert_eq!(buf.fingerprint, 42);
    assert_eq!(buf.slot, "slot_a");
    // Slot still exists after get.
    assert!(pool.contains("slot_a"));
}

#[test]
fn test_take_removes_slot() {
    let mut pool = SharedBufferPool::new(1024);
    pool.put("slot_a", Bytes::from_static(b"data"), 0).unwrap();

    let buf = pool.take("slot_a").unwrap();
    assert_eq!(buf.data.as_ref(), b"data");
    assert!(!pool.contains("slot_a"));
    assert_eq!(pool.slot_count(), 0);
}

#[test]
fn test_capacity_limit() {
    let mut pool = SharedBufferPool::new(10); // 10 bytes max
    pool.put("a", Bytes::from(vec![0u8; 6]), 0).unwrap();
    pool.put("b", Bytes::from(vec![0u8; 6]), 0).unwrap(); // Evicts "a"

    assert!(pool.contains("b"));
    assert_eq!(pool.current_usage_bytes(), 6);
}

#[test]
fn test_replace_existing_slot() {
    let mut pool = SharedBufferPool::new(1024);
    pool.put("x", Bytes::from(vec![0u8; 100]), 1).unwrap();
    assert_eq!(pool.current_usage_bytes(), 100);

    pool.put("x", Bytes::from(vec![0u8; 50]), 2).unwrap();
    assert_eq!(pool.current_usage_bytes(), 50);
    assert_eq!(pool.get("x").unwrap().fingerprint, 2);
}

#[test]
fn test_stats() {
    let mut pool = SharedBufferPool::new(1024);
    pool.put("a", Bytes::from_static(b"hello"), 0).unwrap();
    let _ = pool.get("a");
    let _ = pool.take("a");

    let stats = pool.stats();
    assert_eq!(stats.allocations, 1);
    assert_eq!(stats.zero_copy_reads, 1);
    assert_eq!(stats.takes, 1);
}

#[test]
fn eviction_removes_oldest_slots_first() {
    let mut pool = SharedBufferPool::new(10);
    pool.put("a", Bytes::from(vec![1u8; 3]), 0).unwrap();
    pool.put("b", Bytes::from(vec![2u8; 3]), 0).unwrap();
    pool.put("c", Bytes::from(vec![3u8; 3]), 0).unwrap();
    // 9 bytes used; 4 more need 3 bytes freed: only "a", the oldest, goes.
    pool.put("d", Bytes::from(vec![4u8; 4]), 0).unwrap();
    assert!(!pool.contains("a"));
    assert!(pool.contains("b"));
    assert!(pool.contains("c"));
    assert!(pool.contains("d"));
    assert_eq!(pool.current_usage_bytes(), 10);
    assert_eq!(pool.stats().evictions, 1);
    assert_eq!(pool.stats().bytes_stored_total, 13);
}

#[test]
fn oversized_put_is_refused_and_empties_pool() {
    let mut pool = SharedBufferPool::new(10);
    pool.put("a", Bytes::from(vec![0u8; 4]), 0).unwrap();
    let err = pool.put("big", Bytes::from(vec![0u8; 11]), 0).unwrap_err();
    assert_eq!(err, BufferError::CapacityExceeded { needed: 11, limit: 10, used: 0 });
    assert_eq!(pool.slot_count(), 0);
    assert_eq!(pool.current_usage_bytes(), 0);
    assert_eq!(pool.stats().allocations, 1);
    assert_eq!(pool.stats().evictions, 1);
}

#[test]
fn get_and_take_of_missing_slot() {
    let mut pool = SharedBufferPool::new(10);
    assert!(pool.get("none").is_none());
    assert!(pool.take("none").is_none());
    assert_eq!(pool.stats().zero_copy_reads, 0);
    assert_eq!(pool.stats().takes, 0);
}

#[test]
fn clear_drops_all_slots() {
    let mut pool = SharedBufferPool::new(100);
    pool.put("a", Bytes::from_static(b"abc"), 7).unwrap();
    pool.put("b", Bytes::from_static(b"de"), 8).unwrap();
    assert_eq!(pool.slot_count(), 2);
    pool.clear();
    assert_eq!(pool.slot_count(), 0);
    assert_eq!(pool.current_usage_bytes(), 0);
    assert_eq!(pool.max_bytes(), 100);
    let buf_len = {
        pool.put("c", Bytes::from_static(b"xyz"), 1).unwrap();
        pool.get("c").unwrap().len()
    };
    assert_eq!(buf_len, 3);
    assert!(!pool.get("c").unwrap().is_empty());
}

#[test]
fn replacing_a_slot_reclaims_its_space() {
    let mut pool = SharedBufferPool::new(100);
    pool.put("a", Bytes::from(vec![0u8; 60]), 1).unwrap();
    pool.put("b", Bytes::from(vec![0u8; 30]), 2).unwrap();
    // 90 bytes used; the new 70 bytes fit once the old 60 are reclaimed.
    pool.put("a", Bytes::from(vec![0u8; 70]), 3).unwrap();
    assert_eq!(pool.current_usage_bytes(), 100);
    assert!(pool.contains("b"));
    assert_eq!(pool.stats().evictions, 0);
}

#[test]
fn a_taken_slot_cannot_be_taken_again() {
    let mut pool = SharedBufferPool::new(100);
    pool.put("a", Bytes::from_static(b"one"), 1).unwrap();
    pool.put("b", Bytes::from_static(b"two"), 2).unwrap();
    assert!(pool.take("a").is_some());
    assert!(pool.take("a").is_none());
    assert!(pool.get("a").is_none());
    assert_eq!(pool.get("b").unwrap().data.as_ref(), b"two");
    assert_eq!(pool.stats().takes, 1);
}

#[test]
fn put_then_take_restores_the_pool() {
    let mut pool = SharedBufferPool::new(100);
    pool.put("a", Bytes::from(vec![1u8; 40]), 1).unwrap();
    let (count, used) = (pool.slot_count(), pool.current_usage_bytes());
    pool.put("b", Bytes::from(vec![2u8; 25]), 2).unwrap();
    assert_eq!(pool.slot_count(), count + 1);
    assert_eq!(pool.current_usage_bytes(), used + 25);
    let taken = pool.take("b").unwrap();
    assert_eq!(taken.data.as_ref(), &[2u8; 25][..]);
    assert_eq!(taken.fingerprint, 2);
    assert_eq!(pool.slot_count(), count);
    assert_eq!(pool.current_usage_bytes(), used);
    assert!(pool.contains("a"));
}
