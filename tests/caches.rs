use design_kit::lfu::LFUCache;
use design_kit::lru::LRUCache;

#[test]
fn test_basic_operations() {
    let mut lru = LRUCache::new(2);
    lru.put(1, 1);
    lru.put(2, 2);
    assert_eq!(lru.get(1), 1);
    lru.put(3, 3);
    assert_eq!(lru.get(2), -1);
    lru.put(4, 4);
    assert_eq!(lru.get(1), -1);
    assert_eq!(lru.get(3), 3);
    assert_eq!(lru.get(4), 4);
}

#[test]
fn test_update_existing_key() {
    let mut lru = LRUCache::new(2);
    lru.put(1, 1);
    lru.put(2, 2);
    assert_eq!(lru.get(1), 1);
    lru.put(1, 10);
    assert_eq!(lru.get(1), 10);
    lru.put(3, 3);
    assert_eq!(lru.get(2), -1);
    assert_eq!(lru.get(1), 10);
}

#[test]
fn test_capacity_one() {
    let mut lru = LRUCache::new(1);
    lru.put(1, 1);
    assert_eq!(lru.get(1), 1);
    lru.put(2, 2);
    assert_eq!(lru.get(1), -1);
    assert_eq!(lru.get(2), 2);
}

#[test]
fn lru_capacity_zero_holds_nothing() {
    let mut lru = LRUCache::new(0);
    lru.put(1, 1);
    assert_eq!(lru.get(1), -1);
}

#[test]
fn lfu_evicts_lowest_frequency() {
    let mut c = LFUCache::new(2);
    c.put(1, 1);
    c.put(2, 2);
    assert_eq!(c.get(1), Some(1));
    c.put(3, 3);
    assert_eq!(c.get(2), None);
    assert_eq!(c.get(3), Some(3));
    c.put(4, 4);
    assert_eq!(c.get(1), None);
    assert_eq!(c.get(3), Some(3));
    assert_eq!(c.get(4), Some(4));
}

#[test]
fn lfu_breaks_ties_by_recency() {
    let mut c = LFUCache::new(3);
    c.put(1, 1);
    c.put(2, 2);
    c.put(3, 3);
    c.get(1);
    c.get(2);
    c.get(3);
    c.put(4, 4);
    assert_eq!(c.get(1), None);
    assert_eq!(c.get(2), Some(2));
    assert_eq!(c.get(3), Some(3));
    assert_eq!(c.get(4), Some(4));
}

#[test]
fn lfu_zero_capacity_is_inert() {
    let mut c = LFUCache::new(0);
    c.put(1, 1);
    c.put(2, 2);
    assert_eq!(c.get(1), None);
    assert_eq!(c.get(2), None);
    assert_eq!(c.get(3), None);
}

#[test]
fn lfu_read_your_write_and_update() {
    let mut c = LFUCache::new(2);
    c.put(7, 70);
    assert_eq!(c.get(7), Some(70));
    c.put(7, 71);
    assert_eq!(c.get(7), Some(71));
    c.put(8, 80);
    c.put(9, 90);
    assert_eq!(c.get(8), None);
    assert_eq!(c.get(8), None);
    assert_eq!(c.get(7), Some(71));
    assert_eq!(c.get(9), Some(90));
}

#[test]
fn lfu_put_counts_as_access() {
    let mut c = LFUCache::new(2);
    c.put(1, 1);
    c.put(2, 2);
    c.put(1, 10);
    c.put(3, 3);
    assert_eq!(c.get(2), None);
    assert_eq!(c.get(1), Some(10));
}
