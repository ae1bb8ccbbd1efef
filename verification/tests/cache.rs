use writeback_lru::Log;
use writeback_lru::LogBackend;
use writeback_lru::LRUCache;

#[test]
fn check_algorithm() {
    let mut cache = LRUCache::<LogBackend>::with_capacity(LogBackend::new(), 3);
    cache.insert(0, 0);
    cache.insert(1, 1);
    cache.insert(2, 2);
    cache.insert(3, 3);
    assert_eq!(cache.get_backend_mut().pop_front(), Some(Log::Write(0, true)));
    cache.insert(4, 4);
    assert_eq!(cache.get_backend_mut().pop_front(), Some(Log::Write(1, true)));
    cache.insert(5, 5);
    assert_eq!(cache.get_backend_mut().pop_front(), Some(Log::Write(2, true)));
    assert_eq!(cache.get(&0), Some(&0));
    assert_eq!(cache.get_backend_mut().pop_front(), Some(Log::Load(0)));
    assert_eq!(cache.get_backend_mut().pop_front(), Some(Log::Write(3, true)));
    assert_eq!(cache.get(&1), Some(&1));
    assert_eq!(cache.get_backend_mut().pop_front(), Some(Log::Load(1)));
    assert_eq!(cache.get_backend_mut().pop_front(), Some(Log::Write(4, true)));
    assert_eq!(cache.get(&2), Some(&2));
    assert_eq!(cache.get_backend_mut().pop_front(), Some(Log::Load(2)));
    assert_eq!(cache.get_backend_mut().pop_front(), Some(Log::Write(5, true)));
    assert_eq!(cache.get_mut(&3), Some(&mut 3));
    assert_eq!(cache.get_backend_mut().pop_front(), Some(Log::Load(3)));
    assert_eq!(cache.get_backend_mut().pop_front(), Some(Log::Write(0, false)));
    assert_eq!(cache.get_mut(&4), Some(&mut 4));
    assert_eq!(cache.get_backend_mut().pop_front(), Some(Log::Load(4)));
    assert_eq!(cache.get_backend_mut().pop_front(), Some(Log::Write(1, false)));
    assert_eq!(cache.get_mut(&5), Some(&mut 5));
    assert_eq!(cache.get_backend_mut().pop_front(), Some(Log::Load(5)));
    assert_eq!(cache.get_backend_mut().pop_front(), Some(Log::Write(2, false)));
    assert_eq!(cache.get(&0), Some(&0));
    assert_eq!(cache.get_backend_mut().pop_front(), Some(Log::Load(0)));
    assert_eq!(cache.get_backend_mut().pop_front(), Some(Log::Write(3, true)));
    assert_eq!(cache.get(&1), Some(&1));
    assert_eq!(cache.get_backend_mut().pop_front(), Some(Log::Load(1)));
    assert_eq!(cache.get_backend_mut().pop_front(), Some(Log::Write(4, true)));
    assert_eq!(cache.get(&2), Some(&2));
    assert_eq!(cache.get_backend_mut().pop_front(), Some(Log::Load(2)));
    assert_eq!(cache.get_backend_mut().pop_front(), Some(Log::Write(5, true)));
    assert_eq!(cache.get_mut(&0), Some(&mut 0));
    assert_eq!(cache.get_mut(&1), Some(&mut 1));
    assert_eq!(cache.get_mut(&2), Some(&mut 2));
    assert_eq!(cache.get(&0), Some(&0));
    assert_eq!(cache.get(&2), Some(&2));
    assert_eq!(cache.get(&1), Some(&1));
    assert_eq!(cache.get(&1), Some(&1));
    assert_eq!(cache.get(&0), Some(&0));
    assert_eq!(cache.get(&2), Some(&2));
    assert_eq!(cache.get(&1), Some(&1));
    assert_eq!(cache.get(&2), Some(&2));
    assert_eq!(cache.get(&0), Some(&0));
    assert_eq!(cache.get(&2), Some(&2));
    assert_eq!(cache.get(&0), Some(&0));
    assert_eq!(cache.get(&1), Some(&1));
    assert_eq!(cache.get(&2), Some(&2));
    assert_eq!(cache.get(&1), Some(&1));
    assert_eq!(cache.get(&0), Some(&0));
    assert_eq!(cache.get(&3), Some(&3));
    assert_eq!(cache.get_backend_mut().pop_front(), Some(Log::Load(3)));
    assert_eq!(cache.get_backend_mut().pop_front(), Some(Log::Write(2, true)));
    assert_eq!(cache.get(&4), Some(&4));
    assert_eq!(cache.get_backend_mut().pop_front(), Some(Log::Load(4)));
    assert_eq!(cache.get_backend_mut().pop_front(), Some(Log::Write(1, true)));
    assert_eq!(cache.get(&5), Some(&5));
    assert_eq!(cache.get_backend_mut().pop_front(), Some(Log::Load(5)));
    assert_eq!(cache.get_backend_mut().pop_front(), Some(Log::Write(0, true)));
}

#[test]
fn default_capacity_is_ten() {
    let mut cache = LRUCache::<LogBackend>::new(LogBackend::new());
    let mut i: usize = 0;
    while i < 10 {
        cache.insert(i, i * 100);
        i += 1;
    }
    assert!(cache.get_backend().is_empty());
    cache.insert(10, 1000);
    assert_eq!(cache.get_backend_mut().pop_front(), Some(Log::Write(0, true)));
    assert!(cache.get_backend().is_empty());
}

#[test]
fn backend_accessors_leave_cache_alone() {
    let mut cache = LRUCache::<LogBackend>::with_capacity(LogBackend::new(), 2);
    cache.insert(7, 70);
    assert!(cache.get_backend().is_empty());
    assert_eq!(cache.get_backend_mut().pop_front(), None);
    assert_eq!(cache.get(&7), Some(&70));
    assert!(cache.get_backend().is_empty());
}
