use writeback_lru::Log;
use writeback_lru::LogBackend;
use writeback_lru::LRUCache;

#[test]
fn fill_without_eviction() {
    let mut cache = LRUCache::<LogBackend>::with_capacity(LogBackend::new(), 3);
    cache.insert(0, 0);
    cache.insert(1, 1);
    cache.insert(2, 2);
    assert!(cache.get_backend().is_empty());
    assert_eq!(cache.get(&0), Some(&0));
    assert_eq!(cache.get(&1), Some(&1));
    assert_eq!(cache.get(&2), Some(&2));
    assert!(cache.get_backend().is_empty());
}

#[test]
fn insert_triggers_lru_eviction() {
    let mut cache = LRUCache::<LogBackend>::with_capacity(LogBackend::new(), 3);
    cache.insert(0, 0);
    cache.insert(1, 1);
    cache.insert(2, 2);
    cache.insert(3, 3);
    assert_eq!(cache.get_backend_mut().pop_front(), Some(Log::Write(0, true)));
    assert!(cache.get_backend().is_empty());
}

#[test]
fn read_miss_admits_clean() {
    let mut cache = LRUCache::<LogBackend>::with_capacity(LogBackend::new(), 3);
    cache.insert(0, 0);
    cache.insert(1, 1);
    cache.insert(2, 2);
    cache.insert(3, 3);
    assert_eq!(cache.get_backend_mut().pop_front(), Some(Log::Write(0, true)));
    // Residents are 1, 2, 3, with 1 the least recently used.
    assert_eq!(cache.get(&0), Some(&0));
    assert_eq!(cache.get_backend_mut().pop_front(), Some(Log::Load(0)));
    assert_eq!(cache.get_backend_mut().pop_front(), Some(Log::Write(1, true)));
    assert!(cache.get_backend().is_empty());
}

#[test]
fn read_only_residency_yields_clean_eviction() {
    let mut cache = LRUCache::<LogBackend>::with_capacity(LogBackend::new(), 3);
    cache.insert(0, 0);
    cache.insert(1, 1);
    cache.insert(2, 2);
    cache.insert(3, 3);
    cache.get(&0);
    // Residents are 2, 3, 0; the slot holding 0 was only loaded and read.
    cache.get_backend_mut().pop_front();
    cache.get_backend_mut().pop_front();
    cache.get_backend_mut().pop_front();
    assert!(cache.get_backend().is_empty());
    assert_eq!(cache.get(&2), Some(&2));
    assert_eq!(cache.get(&3), Some(&3));
    assert!(cache.get_backend().is_empty());
    // 0 is now the least recently used and still clean; a miss evicts it.
    assert_eq!(cache.get_mut(&1), Some(&mut 1));
    assert_eq!(cache.get_backend_mut().pop_front(), Some(Log::Load(1)));
    assert_eq!(cache.get_backend_mut().pop_front(), Some(Log::Write(0, false)));
    assert!(cache.get_backend().is_empty());
}

#[test]
fn alternating_access_preserves_residency() {
    let mut cache = LRUCache::<LogBackend>::with_capacity(LogBackend::new(), 3);
    cache.insert(0, 0);
    cache.insert(1, 1);
    cache.insert(2, 2);
    assert!(cache.get_backend().is_empty());
    assert_eq!(cache.get(&2), Some(&2));
    assert_eq!(cache.get(&0), Some(&0));
    assert_eq!(cache.get(&1), Some(&1));
    assert_eq!(cache.get(&1), Some(&1));
    assert_eq!(cache.get(&2), Some(&2));
    assert_eq!(cache.get(&0), Some(&0));
    assert_eq!(cache.get(&0), Some(&0));
    assert_eq!(cache.get(&2), Some(&2));
    assert_eq!(cache.get(&1), Some(&1));
    assert!(cache.get_backend().is_empty());
}

#[test]
fn reinsert_overwrites_with_write_back() {
    let mut cache = LRUCache::<LogBackend>::with_capacity(LogBackend::new(), 3);
    cache.insert(0, 0);
    assert!(cache.get_backend().is_empty());
    cache.insert(0, 99);
    assert_eq!(cache.get_backend_mut().pop_front(), Some(Log::Write(0, true)));
    assert!(cache.get_backend().is_empty());
    assert_eq!(cache.get(&0), Some(&99));
    assert!(cache.get_backend().is_empty());
}

#[test]
fn get_mut_marks_resident_entry_dirty() {
    let mut cache = LRUCache::<LogBackend>::with_capacity(LogBackend::new(), 1);
    cache.insert(5, 50);
    cache.insert(6, 60);
    assert_eq!(cache.get_backend_mut().pop_front(), Some(Log::Write(5, true)));
    // 6 becomes clean only after an eviction and a re-load.
    assert_eq!(cache.get(&5), Some(&5));
    assert_eq!(cache.get_backend_mut().pop_front(), Some(Log::Load(5)));
    assert_eq!(cache.get_backend_mut().pop_front(), Some(Log::Write(6, true)));
    // 5 is resident and clean; touching it with get_mut makes its
    // eventual write-back dirty even though nothing is written.
    assert_eq!(cache.get_mut(&5), Some(&mut 5));
    assert_eq!(cache.get(&7), Some(&7));
    assert_eq!(cache.get_backend_mut().pop_front(), Some(Log::Load(7)));
    assert_eq!(cache.get_backend_mut().pop_front(), Some(Log::Write(5, true)));
    assert!(cache.get_backend().is_empty());
}

#[test]
fn mutation_through_get_mut_is_seen_by_get() {
    let mut cache = LRUCache::<LogBackend>::with_capacity(LogBackend::new(), 2);
    cache.insert(1, 10);
    if let Some(v) = cache.get_mut(&1) {
        *v = 11;
    }
    assert_eq!(cache.get(&1), Some(&11));
    assert!(cache.get_backend().is_empty());
}
