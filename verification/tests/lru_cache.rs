use memory_cache_system::CacheStatus;
use memory_cache_system::LruCache;

#[test]
fn lru_cache_test_new() {
    let cache: LruCache<String, String> = LruCache::new(1000);

    assert_eq!(cache.capacity(), 1000);
    assert!(cache.is_empty());
    assert!(cache.head().is_none());
    assert!(cache.tail().is_none());
    assert_eq!(cache.stats(), CacheStatus::new());
}

#[test]
fn lru_cache_test_put() {
    let mut cache: LruCache<String, String> = LruCache::new(2000);
    cache.put("1".to_string(), "Hello".to_string());
    let head = cache.head().unwrap();

    assert_eq!(*head.key(), "1".to_string());
    assert_eq!(*head.value(), "Hello".to_string());
}

#[test]
fn lru_cache_test_get() {
    let mut cache: LruCache<String, String> = LruCache::new(3000);
    let key = "1".to_string();
    cache.put(key.clone(), "Hello".to_string());
    let value = cache.get(&key);

    assert_eq!(value, Some("Hello".to_string()));
}

#[test]
fn eviction_order() {
    let mut cache: LruCache<String, u64> = LruCache::new(2);
    cache.put("a".to_string(), 1);
    cache.put("b".to_string(), 2);
    cache.put("c".to_string(), 3);
    assert_eq!(cache.get(&"a".to_string()), None);
    assert_eq!(cache.get(&"b".to_string()), Some(2));
    assert_eq!(cache.get(&"c".to_string()), Some(3));
}

#[test]
fn promotion_on_access() {
    let mut cache: LruCache<String, u64> = LruCache::new(2);
    cache.put("a".to_string(), 1);
    cache.put("b".to_string(), 2);
    assert_eq!(cache.get(&"a".to_string()), Some(1));
    cache.put("c".to_string(), 3);
    assert_eq!(cache.get(&"b".to_string()), None);
    assert_eq!(cache.get(&"a".to_string()), Some(1));
}

#[test]
fn update_in_place() {
    let mut cache: LruCache<String, u64> = LruCache::new(4);
    cache.put("a".to_string(), 1);
    assert_eq!(cache.len(), 1);
    cache.put("a".to_string(), 2);
    assert_eq!(cache.len(), 1);
    assert_eq!(cache.get(&"a".to_string()), Some(2));
}

#[test]
fn update_promotes_the_entry() {
    let mut cache: LruCache<u64, u64> = LruCache::new(2);
    cache.put(1, 10);
    cache.put(2, 20);
    cache.put(1, 11);
    assert_eq!(*cache.head().unwrap().key(), 1);
    assert_eq!(*cache.tail().unwrap().key(), 2);
    cache.put(3, 30);
    assert_eq!(cache.get(&2), None);
    assert_eq!(cache.get(&1), Some(11));
    assert_eq!(cache.get(&3), Some(30));
}

#[test]
fn update_in_a_full_cache_evicts_nothing() {
    let mut cache: LruCache<u64, u64> = LruCache::new(2);
    cache.put(1, 10);
    cache.put(2, 20);
    cache.put(2, 21);
    assert_eq!(cache.len(), 2);
    assert_eq!(cache.get(&1), Some(10));
    assert_eq!(cache.get(&2), Some(21));
}

#[test]
fn capacity_bound() {
    let mut cache: LruCache<u64, u64> = LruCache::new(3);
    let mut key: u64 = 0;
    while key < 50 {
        cache.put(key % 7, key);
        assert!(cache.len() <= 3);
        key += 1;
    }
    assert_eq!(cache.len(), 3);
    assert_eq!(cache.capacity(), 3);
}

#[test]
fn capacity_of_one_keeps_the_last_key() {
    let mut cache: LruCache<u64, u64> = LruCache::new(1);
    cache.put(1, 10);
    cache.put(2, 20);
    assert_eq!(cache.len(), 1);
    assert_eq!(cache.get(&1), None);
    assert_eq!(cache.get(&2), Some(20));
    assert_eq!(*cache.head().unwrap().key(), 2);
    assert_eq!(*cache.tail().unwrap().key(), 2);
}

#[test]
fn stats_accuracy() {
    let mut cache: LruCache<u64, u64> = LruCache::new(2);
    cache.put(1, 10);
    assert_eq!(cache.stats().hits(), 0);
    assert_eq!(cache.stats().misses(), 0);

    assert_eq!(cache.get(&1), Some(10));
    assert_eq!(cache.stats().hits(), 1);
    assert_eq!(cache.stats().misses(), 0);

    assert_eq!(cache.get(&2), None);
    assert_eq!(cache.stats().hits(), 1);
    assert_eq!(cache.stats().misses(), 1);

    cache.put(2, 20);
    cache.put(3, 30);
    cache.remove_lru();
    assert_eq!(cache.stats().hits(), 1);
    assert_eq!(cache.stats().misses(), 1);

    let mut lookups: usize = 2;
    let mut key: u64 = 0;
    while key < 20 {
        let _ = cache.get(&(key % 5));
        lookups += 1;
        assert_eq!(cache.stats().hits() + cache.stats().misses(), lookups);
        key += 1;
    }
}

#[test]
fn idempotent_miss() {
    let mut cache: LruCache<String, String> = LruCache::new(5);
    assert_eq!(cache.get(&"a".to_string()), None);
    assert_eq!(cache.get(&"a".to_string()), None);
    assert_eq!(cache.get(&"b".to_string()), None);
    assert!(cache.is_empty());
    assert_eq!(cache.len(), 0);
    assert!(cache.head().is_none());
    assert!(cache.tail().is_none());
    assert_eq!(cache.capacity(), 5);
    assert_eq!(cache.stats().hits(), 0);
    assert_eq!(cache.stats().misses(), 3);
}

#[test]
fn remove_lru_drops_the_tail() {
    let mut cache: LruCache<u64, u64> = LruCache::new(3);
    cache.put(1, 10);
    cache.put(2, 20);
    cache.put(3, 30);
    cache.remove_lru();
    assert_eq!(cache.len(), 2);
    assert_eq!(*cache.tail().unwrap().key(), 2);
    assert_eq!(*cache.head().unwrap().key(), 3);
    assert_eq!(cache.get(&1), None);
    assert_eq!(cache.get(&2), Some(20));
    assert_eq!(cache.get(&3), Some(30));
}

#[test]
fn remove_lru_on_an_empty_cache_does_nothing() {
    let mut cache: LruCache<u64, u64> = LruCache::new(3);
    cache.remove_lru();
    assert!(cache.is_empty());
    assert_eq!(cache.stats(), CacheStatus::new());
    cache.put(1, 10);
    cache.remove_lru();
    cache.remove_lru();
    assert!(cache.is_empty());
    assert!(cache.head().is_none());
    assert!(cache.tail().is_none());
    cache.put(2, 20);
    assert_eq!(cache.get(&2), Some(20));
}

#[test]
fn freed_room_is_used_again() {
    let mut cache: LruCache<u64, u64> = LruCache::new(3);
    cache.put(1, 10);
    cache.put(2, 20);
    cache.put(3, 30);
    cache.remove_lru();
    cache.remove_lru();
    cache.put(4, 40);
    cache.put(5, 50);
    assert_eq!(cache.len(), 3);
    assert_eq!(cache.get(&3), Some(30));
    assert_eq!(cache.get(&4), Some(40));
    assert_eq!(cache.get(&5), Some(50));
    cache.put(6, 60);
    assert_eq!(cache.len(), 3);
    assert_eq!(cache.get(&3), None);
}

#[test]
fn head_and_tail_follow_the_order_of_use() {
    let mut cache: LruCache<u64, u64> = LruCache::new(3);
    cache.put(1, 10);
    cache.put(2, 20);
    cache.put(3, 30);
    assert_eq!(*cache.head().unwrap().key(), 3);
    assert_eq!(*cache.head().unwrap().value(), 30);
    assert_eq!(*cache.tail().unwrap().key(), 1);
    assert_eq!(*cache.tail().unwrap().value(), 10);

    assert_eq!(cache.get(&1), Some(10));
    assert_eq!(*cache.head().unwrap().key(), 1);
    assert_eq!(*cache.tail().unwrap().key(), 2);

    assert_eq!(cache.get(&3), Some(30));
    assert_eq!(*cache.head().unwrap().key(), 3);
    assert_eq!(*cache.tail().unwrap().key(), 2);

    assert_eq!(cache.get(&3), Some(30));
    assert_eq!(*cache.head().unwrap().key(), 3);
    assert_eq!(*cache.tail().unwrap().key(), 2);
}

#[test]
fn looking_at_head_and_tail_is_no_use() {
    let mut cache: LruCache<u64, u64> = LruCache::new(2);
    cache.put(1, 10);
    cache.put(2, 20);
    assert_eq!(*cache.tail().unwrap().key(), 1);
    assert_eq!(*cache.tail().unwrap().key(), 1);
    cache.put(3, 30);
    assert_eq!(cache.get(&1), None);
    assert_eq!(cache.stats().hits(), 0);
    assert_eq!(cache.stats().misses(), 1);
}

#[test]
fn middle_entry_can_be_promoted() {
    let mut cache: LruCache<u64, u64> = LruCache::new(3);
    cache.put(1, 10);
    cache.put(2, 20);
    cache.put(3, 30);
    assert_eq!(cache.get(&2), Some(20));
    cache.put(4, 40);
    assert_eq!(cache.get(&1), None);
    cache.put(5, 50);
    assert_eq!(cache.get(&3), None);
    assert_eq!(cache.get(&2), Some(20));
    assert_eq!(cache.get(&4), Some(40));
    assert_eq!(cache.get(&5), Some(50));
}

#[test]
fn long_run_agrees_with_a_plain_list() {
    let capacity: usize = 4;
    let mut cache: LruCache<u64, u64> = LruCache::new(capacity);
    let mut model: Vec<(u64, u64)> = Vec::new();
    let mut hits: usize = 0;
    let mut misses: usize = 0;
    let mut seed: u64 = 12345;
    let mut step: u64 = 0;
    while step < 2000 {
        seed = seed.wrapping_mul(6364136223846793005).wrapping_add(1442695040888963407);
        let key = (seed >> 33) % 9;
        let choice = (seed >> 20) % 5;
        if choice < 2 {
            if let Some(at) = model.iter().position(|e| e.0 == key) {
                model.remove(at);
            } else if model.len() >= capacity {
                model.pop();
            }
            model.insert(0, (key, step));
            cache.put(key, step);
        } else if choice < 4 {
            let expected = match model.iter().position(|e| e.0 == key) {
                Some(at) => {
                    let entry = model.remove(at);
                    model.insert(0, entry);
                    hits += 1;
                    Some(entry.1)
                }
                None => {
                    misses += 1;
                    None
                }
            };
            assert_eq!(cache.get(&key), expected);
        } else {
            model.pop();
            cache.remove_lru();
        }
        assert_eq!(cache.len(), model.len());
        assert_eq!(cache.head().map(|n| (*n.key(), *n.value())), model.first().copied());
        assert_eq!(cache.tail().map(|n| (*n.key(), *n.value())), model.last().copied());
        assert_eq!(cache.stats().hits(), hits);
        assert_eq!(cache.stats().misses(), misses);
        step += 1;
    }
}
