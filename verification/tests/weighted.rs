use writeback_lru::CacheBackend;
use writeback_lru::Log;
use writeback_lru::LogBackend;
use writeback_lru::WeightedBackend;
use writeback_lru::LRU;
use writeback_lru::ListMap;

type WeightedCache = LRU<WeightedBackend, ListMap<usize>>;

#[test]
fn one_insert_can_evict_several_entries() {
    let mut cache = WeightedCache::with_capacity(WeightedBackend::new(), 4);
    cache.insert(1, 2);
    cache.insert(2, 2);
    assert!(cache.get_backend().is_empty());
    // Admitting weight 3 on top of a full 4 evicts both residents, the
    // least recently used first.
    cache.insert(3, 3);
    assert_eq!(cache.get_backend_mut().pop_front(), Some(Log::Write(1, true)));
    assert_eq!(cache.get_backend_mut().pop_front(), Some(Log::Write(2, true)));
    assert!(cache.get_backend().is_empty());
    assert_eq!(cache.get(&3), Some(&3));
    assert!(cache.get_backend().is_empty());
}

#[test]
fn oversize_item_is_admitted_alone() {
    let mut cache = WeightedCache::with_capacity(WeightedBackend::new(), 3);
    cache.insert(1, 1);
    // Weight 5 exceeds the whole capacity: the cache is emptied and the
    // item is admitted anyway.
    cache.insert(2, 5);
    assert_eq!(cache.get_backend_mut().pop_front(), Some(Log::Write(1, true)));
    assert!(cache.get_backend().is_empty());
    assert_eq!(cache.get(&2), Some(&5));
    assert!(cache.get_backend().is_empty());
    // The next admission evicts the oversize item at once.
    cache.insert(3, 1);
    assert_eq!(cache.get_backend_mut().pop_front(), Some(Log::Write(2, true)));
    assert!(cache.get_backend().is_empty());
}

#[test]
fn weights_accumulate_until_capacity() {
    let mut cache = WeightedCache::with_capacity(WeightedBackend::new(), 6);
    cache.insert(1, 3);
    cache.insert(2, 2);
    cache.insert(3, 1);
    assert!(cache.get_backend().is_empty());
    cache.insert(4, 1);
    assert_eq!(cache.get_backend_mut().pop_front(), Some(Log::Write(1, true)));
    assert!(cache.get_backend().is_empty());
}

#[test]
fn get_weight_reports_the_backends_metric() {
    let mut weighted = WeightedBackend::new();
    assert_eq!(weighted.get_weight(&0, &17), 17);
    let mut unit = LogBackend::new();
    assert_eq!(unit.get_weight(&0, &17), 1);
    assert!(weighted.is_empty() && unit.is_empty());
}
