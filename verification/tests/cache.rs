use memory_cache_system::Cache;

#[test]
fn cache_test_new() {
    let cache: Cache<String, String> = Cache::new(1000);
    assert_eq!(cache.capacity(), 1000);
}

#[test]
fn cache_test_put() {
    let mut cache: Cache<String, String> = Cache::new(2000);
    cache.put("1".to_string(), "Hello".to_string());
    assert_eq!(*cache.get(&"1".to_string()).unwrap(), "Hello".to_string());
}

#[test]
fn cache_test_get() {
    let mut cache: Cache<String, String> = Cache::new(3000);
    cache.put("1".to_string(), "Hello".to_string());
    assert_eq!(cache.get(&"1".to_string()), Some(&"Hello".to_string()));
}

#[test]
fn new_cache_is_empty() {
    let cache: Cache<u64, u64> = Cache::new(4);
    assert_eq!(cache.len(), 0);
    assert_eq!(cache.get(&1), None);
}

#[test]
fn get_of_an_absent_key_finds_nothing() {
    let mut cache: Cache<u64, u64> = Cache::new(4);
    cache.put(1, 10);
    assert_eq!(cache.get(&2), None);
    assert_eq!(cache.len(), 1);
}

#[test]
fn full_cache_drops_a_new_key() {
    let mut cache: Cache<u64, u64> = Cache::new(3);
    cache.put(1, 10);
    cache.put(2, 20);
    cache.put(3, 30);
    assert_eq!(cache.len(), 3);
    cache.put(4, 40);
    assert_eq!(cache.len(), 3);
    assert_eq!(cache.get(&4), None);
    assert_eq!(cache.get(&1), Some(&10));
    assert_eq!(cache.get(&2), Some(&20));
    assert_eq!(cache.get(&3), Some(&30));
}

#[test]
fn full_cache_drops_an_update_too() {
    let mut cache: Cache<u64, u64> = Cache::new(2);
    cache.put(1, 10);
    cache.put(2, 20);
    cache.put(1, 11);
    assert_eq!(cache.get(&1), Some(&10));
    assert_eq!(cache.len(), 2);
}

#[test]
fn cache_with_room_takes_an_update() {
    let mut cache: Cache<u64, u64> = Cache::new(3);
    cache.put(1, 10);
    cache.put(1, 11);
    assert_eq!(cache.get(&1), Some(&11));
    assert_eq!(cache.len(), 1);
}

#[test]
fn cache_of_capacity_zero_takes_nothing() {
    let mut cache: Cache<u64, u64> = Cache::new(0);
    cache.put(1, 10);
    assert_eq!(cache.len(), 0);
    assert_eq!(cache.get(&1), None);
    assert_eq!(cache.capacity(), 0);
}

#[test]
fn get_changes_nothing() {
    let mut cache: Cache<u64, u64> = Cache::new(2);
    cache.put(1, 10);
    cache.put(2, 20);
    assert_eq!(cache.get(&1), Some(&10));
    assert_eq!(cache.get(&1), Some(&10));
    cache.put(3, 30);
    assert_eq!(cache.get(&1), Some(&10));
    assert_eq!(cache.get(&2), Some(&20));
    assert_eq!(cache.get(&3), None);
}

#[test]
fn capacity_stays_what_it_was() {
    let mut cache: Cache<u64, u64> = Cache::new(2);
    cache.put(1, 10);
    cache.put(2, 20);
    cache.put(3, 30);
    assert_eq!(cache.capacity(), 2);
}
