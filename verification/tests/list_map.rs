use writeback_lru::BTreeLRUCache;
use writeback_lru::CacheIndex;
use writeback_lru::CacheMapBackend;
use writeback_lru::ListLRUCache;
use writeback_lru::ListMap;
use writeback_lru::Log;
use writeback_lru::LogBackend;
use writeback_lru::LRUCache;

#[test]
fn list_map_insert_get_remove() {
    let mut map: ListMap<usize> = ListMap::new();
    assert_eq!(map.get(&1), None);
    map.insert(1, 100);
    map.insert(2, 200);
    assert_eq!(map.get(&1), Some(100));
    assert_eq!(map.get(&2), Some(200));
    assert_eq!(map.get(&3), None);
    map.insert(1, 111);
    assert_eq!(map.get(&1), Some(111));
    assert_eq!(map.remove(&1), Some(111));
    assert_eq!(map.get(&1), None);
    assert_eq!(map.remove(&1), None);
    assert_eq!(map.get(&2), Some(200));
}

#[test]
fn cache_index_duplicate_and_equals() {
    let a: u64 = 42;
    let b = a.duplicate();
    assert_eq!(a, b);
    assert!(a.equals(&b));
    assert!(!a.equals(&41));
    let c: u32 = 7;
    assert!(c.duplicate().equals(&7));
    let d: usize = 9;
    assert!(d.equals(&9) && !d.equals(&8));
}

#[test]
fn map_variants_behave_alike() {
    let mut hash_cache = LRUCache::<LogBackend>::with_capacity(LogBackend::new(), 2);
    let mut tree_cache = BTreeLRUCache::<LogBackend>::with_capacity(LogBackend::new(), 2);
    let mut list_cache = ListLRUCache::<LogBackend>::with_capacity(LogBackend::new(), 2);
    hash_cache.insert(1, 10);
    tree_cache.insert(1, 10);
    list_cache.insert(1, 10);
    hash_cache.insert(2, 20);
    tree_cache.insert(2, 20);
    list_cache.insert(2, 20);
    assert_eq!(hash_cache.get(&1), Some(&10));
    assert_eq!(tree_cache.get(&1), Some(&10));
    assert_eq!(list_cache.get(&1), Some(&10));
    // 2 is now the least recently used everywhere.
    hash_cache.insert(3, 30);
    tree_cache.insert(3, 30);
    list_cache.insert(3, 30);
    assert_eq!(hash_cache.get_backend_mut().pop_front(), Some(Log::Write(2, true)));
    assert_eq!(tree_cache.get_backend_mut().pop_front(), Some(Log::Write(2, true)));
    assert_eq!(list_cache.get_backend_mut().pop_front(), Some(Log::Write(2, true)));
    assert!(hash_cache.get_backend().is_empty());
    assert!(tree_cache.get_backend().is_empty());
    assert!(list_cache.get_backend().is_empty());
}
