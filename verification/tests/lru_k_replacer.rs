use page_store::lru_k_replacer::get_now_ts;
use page_store::AccessType;
use page_store::LruKNode;
use page_store::LruKReplacer;

#[test]
fn test_init_node() {
    let now = get_now_ts();
    let node = LruKNode::new(10, 2);

    assert!(node.least_recent_access() - now < 1000000);
    assert_eq!(node.k_distance(), None);
}

#[test]
fn test_history() {
    let mut node = LruKNode::new(10, 3);
    node.record_access();
    node.record_access();

    assert!(node.k_distance().is_some());
}

#[test]
fn test_init_replacer() {
    let replacer = LruKReplacer::new(10, 2);

    assert_eq!(replacer.size(), 0);
}

#[test]
fn test_size_after_record_access() {
    let mut replacer = LruKReplacer::new(10, 2);

    replacer.record_access(12, AccessType::Unknown);
    replacer.record_access(13, AccessType::Unknown);

    assert_eq!(replacer.size(), 0);
}

#[test]
fn test_size_after_set_evictable() {
    let frame_id = 12;
    let mut replacer = LruKReplacer::new(10, 2);

    replacer.record_access(frame_id, AccessType::Unknown);
    replacer.set_evictable(frame_id, true);
    assert_eq!(replacer.size(), 1);

    replacer.set_evictable(frame_id, false);
    assert_eq!(replacer.size(), 0);
}

#[test]
fn test_eviction_1() {
    let mut replacer = LruKReplacer::new(10, 2);
    let first_frame_id = 10;
    let second_frame_id = 11;
    let third_frame_id = 12;
    replacer.record_access(first_frame_id, AccessType::Unknown);
    replacer.record_access(second_frame_id, AccessType::Unknown);
    replacer.record_access(third_frame_id, AccessType::Unknown);
    // access first frame one more time
    replacer.record_access(first_frame_id, AccessType::Unknown);

    replacer.set_evictable(first_frame_id, true);
    replacer.set_evictable(second_frame_id, true);
    replacer.set_evictable(third_frame_id, true);

    let frame_id = replacer.evict();

    assert_eq!(frame_id, Some(second_frame_id));
}

// frame with no k accesses and least recent access should be evicted
#[test]
fn test_eviction_2() {
    let mut replacer = LruKReplacer::new(10, 3);
    let first_frame_id = 10;
    let second_frame_id = 11;
    let third_frame_id = 12;
    replacer.record_access(first_frame_id, AccessType::Unknown);
    replacer.record_access(second_frame_id, AccessType::Unknown);
    replacer.record_access(second_frame_id, AccessType::Unknown);
    replacer.record_access(third_frame_id, AccessType::Unknown);
    replacer.record_access(third_frame_id, AccessType::Unknown);
    replacer.record_access(third_frame_id, AccessType::Unknown);

    replacer.set_evictable(first_frame_id, true);
    replacer.set_evictable(second_frame_id, true);
    replacer.set_evictable(third_frame_id, true);

    let frame_id = replacer.evict();

    assert_eq!(frame_id, Some(first_frame_id));
}

// multiple frames have the same backward k-distance.
#[test]
fn test_eviction_3() {
    let mut replacer = LruKReplacer::new(10, 2);
    let first_frame_id = 10;
    let second_frame_id = 11;
    replacer.record_access(first_frame_id, AccessType::Unknown);
    replacer.record_access(second_frame_id, AccessType::Unknown);

    replacer.set_evictable(first_frame_id, true);
    replacer.set_evictable(second_frame_id, true);

    let frame_id = replacer.evict();

    assert_eq!(frame_id, Some(first_frame_id));
}

// ensure that a frame marked as non-evictable is not evicted.
// first frame marked as not evictable, so it should not be evicted.
#[test]
fn test_eviction_4() {
    let mut replacer = LruKReplacer::new(10, 3);
    let first_frame_id = 10;
    let second_frame_id = 11;
    let third_frame_id = 12;
    replacer.record_access(first_frame_id, AccessType::Unknown);
    replacer.record_access(second_frame_id, AccessType::Unknown);
    replacer.record_access(second_frame_id, AccessType::Unknown);
    replacer.record_access(third_frame_id, AccessType::Unknown);
    replacer.record_access(third_frame_id, AccessType::Unknown);
    replacer.record_access(third_frame_id, AccessType::Unknown);

    replacer.set_evictable(second_frame_id, true);
    replacer.set_evictable(third_frame_id, true);

    let frame_id = replacer.evict();

    assert_eq!(frame_id, Some(second_frame_id));
}

// remove frame from replacer
#[test]
fn test_eviction_5() {
    let mut replacer = LruKReplacer::new(10, 3);
    let first_frame_id = 10;
    replacer.record_access(first_frame_id, AccessType::Unknown);

    replacer.set_evictable(first_frame_id, true);
    replacer.remove(first_frame_id);

    let frame_id = replacer.evict();

    assert_eq!(frame_id, None);
}

// full k-history eviction: the frame with fewer than k accesses has
// infinite distance and goes first.
#[test]
fn test_eviction_infinite_distance_first() {
    let mut replacer = LruKReplacer::new(10, 3);
    replacer.record_access(1, AccessType::Unknown);
    replacer.record_access(2, AccessType::Unknown);
    replacer.record_access(2, AccessType::Unknown);
    replacer.record_access(3, AccessType::Unknown);
    replacer.record_access(3, AccessType::Unknown);
    replacer.record_access(3, AccessType::Unknown);
    replacer.set_evictable(1, true);
    replacer.set_evictable(2, true);
    replacer.set_evictable(3, true);

    assert_eq!(replacer.evict(), Some(1));
}

// eviction does not untrack the victim; the caller decides.
#[test]
fn test_evict_keeps_node() {
    let mut replacer = LruKReplacer::new(4, 2);
    replacer.record_access(7, AccessType::Unknown);
    replacer.set_evictable(7, true);
    assert_eq!(replacer.evict(), Some(7));
    assert_eq!(replacer.size(), 1);
    replacer.set_evictable(7, false);
    assert_eq!(replacer.evict(), None);
}
