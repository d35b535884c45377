use page_store::BufferPoolError;
use page_store::BufferPoolManager;
use page_store::DiskManager;
use page_store::DiskScheduler;
use page_store::ExtendibleHashTable;
use page_store::ExtendibleHashTableError;
use page_store::extendible_hash_table::hash_string;

fn fresh_pool(pool_size: usize, replacer_k: usize) -> BufferPoolManager {
    BufferPoolManager::new(DiskManager::new(), pool_size, replacer_k)
}

// Basic put/get: a table over a 12-frame pool with two-entry buckets
// holds twelve keys, and every earlier key stays readable after each
// further insert.
#[test]
fn test_basic_put_get() {
    let pool = fresh_pool(12, 4);
    let mut table = ExtendibleHashTable::new("basic".to_string(), pool, 6, 2);
    let keys = ["a", "b", "c", "d", "e", "f", "g", "h", "i", "j", "k", "l"];
    for i in 0..keys.len() {
        table.insert(keys[i].to_string(), 277).unwrap();
        for j in 0..=i {
            assert_eq!(table.get(keys[j].to_string()), Some(277));
        }
    }
    assert_eq!(table.get("absent".to_string()), None);
    assert!(table.verify_integrity());
}

// Split round-trip: three keys colliding on the low directory bits
// force bucket splits at bucket capacity two, and stay readable once
// depth three tells them apart. Keys sharing all three directory bits
// could never be told apart by a depth-three directory, so the keys
// here share two bits and differ at the third.
#[test]
fn test_split_round_trip() {
    let mut pair: Vec<String> = Vec::new();
    let mut sibling: Vec<String> = Vec::new();
    let mut candidate = 0u32;
    let want = hash_string("seed") & 7;
    while (pair.len() < 2 || sibling.is_empty()) && candidate < 100000 {
        let key = format!("key{}", candidate);
        let low = hash_string(&key) & 7;
        if low == want && pair.len() < 2 {
            pair.push(key);
        } else if low == want ^ 4 && sibling.is_empty() {
            sibling.push(key);
        }
        candidate += 1;
    }
    assert_eq!(pair.len(), 2);
    assert_eq!(sibling.len(), 1);
    let colliders = [pair[0].clone(), pair[1].clone(), sibling[0].clone()];
    let pool = fresh_pool(12, 2);
    let mut table = ExtendibleHashTable::new("split".to_string(), pool, 3, 2);
    for (i, key) in colliders.iter().enumerate() {
        table.insert(key.clone(), 1000 + i as u64).unwrap();
    }
    for (i, key) in colliders.iter().enumerate() {
        assert_eq!(table.get(key.clone()), Some(1000 + i as u64));
    }
    assert!(table.verify_integrity());
}

// Overwrite: the second value of a key wins.
#[test]
fn test_overwrite() {
    let pool = fresh_pool(8, 2);
    let mut table = ExtendibleHashTable::new("overwrite".to_string(), pool, 4, 4);
    table.insert("k".to_string(), 1).unwrap();
    table.insert("k".to_string(), 2).unwrap();
    assert_eq!(table.get("k".to_string()), Some(2));
}

// Idempotent insert: repeating an insert changes nothing a reader can
// see.
#[test]
fn test_idempotent_insert() {
    let pool = fresh_pool(8, 2);
    let mut table = ExtendibleHashTable::new("idem".to_string(), pool, 4, 2);
    table.insert("x".to_string(), 5).unwrap();
    table.insert("y".to_string(), 6).unwrap();
    table.insert("x".to_string(), 5).unwrap();
    assert_eq!(table.get("x".to_string()), Some(5));
    assert_eq!(table.get("y".to_string()), Some(6));
}

// A directory at its maximum depth refuses the insert that would have
// to grow it.
#[test]
fn test_directory_full() {
    let pool = fresh_pool(8, 2);
    let mut table = ExtendibleHashTable::new("full".to_string(), pool, 0, 1);
    table.insert("first".to_string(), 1).unwrap();
    let err = table.insert("second".to_string(), 2).unwrap_err();
    assert_eq!(err, ExtendibleHashTableError::DirectoryMaxSizeReached);
    // The failed insert left the table as it was.
    assert_eq!(table.get("first".to_string()), Some(1));
    assert_eq!(table.get("second".to_string()), None);
}

// Scheduler ordering: requests to one page id complete in submission
// order, and every request completes.
#[test]
fn test_scheduler_ordering() {
    let mut scheduler = DiskScheduler::new(DiskManager::new());
    let r1 = scheduler.schedule_read(1);
    let r2 = scheduler.schedule_write(1, vec![1u8; 8]);
    let r3 = scheduler.schedule_write(2, vec![2u8; 8]);
    let r4 = scheduler.schedule_read(1);
    let r5 = scheduler.schedule_read(4);
    let r6 = scheduler.schedule_read(2);
    while scheduler.process_next().is_some() {}
    let log = scheduler.completions_log();
    assert_eq!(log.len(), 6);
    let p1: Vec<u64> = log.iter().filter(|e| e.0 == 1).map(|e| e.1).collect();
    assert_eq!(p1, vec![r1, r2, r4]);
    let done: Vec<u64> = log.iter().map(|e| e.1).collect();
    for rid in [r1, r2, r3, r4, r5, r6] {
        assert!(done.contains(&rid));
    }
}

// Per-page FIFO: of two writes to one page, the later one is on the
// disk afterwards.
#[test]
fn test_write_order_wins() {
    let mut scheduler = DiskScheduler::new(DiskManager::new());
    scheduler.schedule_write(9, vec![1u8; 4]);
    scheduler.schedule_write(9, vec![2u8; 4]);
    while scheduler.process_next().is_some() {}
    let data = scheduler.read_page_sync(9);
    assert_eq!(data, vec![2u8; 4]);
}

// Pool bookkeeping: pages live in frames while pinned, survive
// eviction through writeback, and errors say why an operation failed.
#[test]
fn test_pool_writeback_and_reload() {
    let mut pool = fresh_pool(1, 2);
    let p1 = pool.new_page().unwrap();
    assert!(pool.write_page_data(p1, vec![7u8; 16]));
    pool.unpin_page(p1, true).unwrap();
    let p2 = pool.new_page().unwrap();
    assert_ne!(p1, p2);
    pool.unpin_page(p2, false).unwrap();
    // p1 was evicted to make room; its bytes must come back from disk.
    let data = pool.fetch_page_read(p1).unwrap();
    assert_eq!(data, vec![7u8; 16]);
    pool.unpin_page(p1, false).unwrap();
}

#[test]
fn test_pool_errors() {
    let mut pool = fresh_pool(2, 2);
    assert_eq!(pool.unpin_page(42, false), Err(BufferPoolError::PageNotInPool));
    assert_eq!(pool.flush_page(42), Err(BufferPoolError::PageNotInPool));
    let p1 = pool.new_page().unwrap();
    assert_eq!(pool.delete_page(p1), Err(BufferPoolError::PagePinned));
    pool.unpin_page(p1, false).unwrap();
    assert_eq!(pool.delete_page(p1), Ok(()));
    // Deleting a page that is not resident is a silent success.
    assert_eq!(pool.delete_page(999), Ok(()));
}

#[test]
fn test_pool_exhaustion() {
    let mut pool = fresh_pool(1, 2);
    let _p1 = pool.new_page().unwrap();
    // The only frame is pinned: no frame can be found for another page.
    assert_eq!(pool.new_page(), None);
}

#[test]
fn test_flush_persists() {
    let mut pool = fresh_pool(2, 2);
    let p1 = pool.new_page().unwrap();
    assert!(pool.write_page_data(p1, vec![3u8; 8]));
    pool.flush_page(p1).unwrap();
    pool.unpin_page(p1, false).unwrap();
    let data = pool.fetch_page_read(p1).unwrap();
    assert_eq!(data, vec![3u8; 8]);
    pool.unpin_page(p1, false).unwrap();
}

#[test]
fn test_hash_string_deterministic() {
    assert_eq!(hash_string("alpha"), hash_string("alpha"));
    let keys = ["a", "b", "c", "d"];
    for key in keys {
        let h = hash_string(key);
        assert_eq!(h, hash_string(key));
    }
}
