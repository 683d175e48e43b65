use memory_cache_system::CacheStatus;

#[test]
fn cache_status_test_new() {
    let cache_status = CacheStatus::new();
    assert_eq!(cache_status.hits(), 0);
    assert_eq!(cache_status.misses(), 0);
}

#[test]
fn test_hit() {
    let mut cache_status = CacheStatus::new();
    cache_status.hit();
    assert_eq!(cache_status.hits(), 1);
}

#[test]
fn test_miss() {
    let mut cache_status = CacheStatus::new();
    cache_status.miss();
    assert_eq!(cache_status.misses(), 1);
}

#[test]
fn hit_leaves_misses_alone() {
    let mut status = CacheStatus::new();
    status.hit();
    status.hit();
    status.hit();
    assert_eq!(status.hits(), 3);
    assert_eq!(status.misses(), 0);
}

#[test]
fn miss_leaves_hits_alone() {
    let mut status = CacheStatus::new();
    status.miss();
    status.miss();
    assert_eq!(status.hits(), 0);
    assert_eq!(status.misses(), 2);
}

#[test]
fn counters_are_independent() {
    let mut status = CacheStatus::new();
    status.hit();
    status.miss();
    status.hit();
    status.miss();
    status.miss();
    assert_eq!(status.hits(), 2);
    assert_eq!(status.misses(), 3);
}

#[test]
fn statuses_compare_by_their_counters() {
    let mut a = CacheStatus::new();
    let mut b = CacheStatus::new();
    assert_eq!(a, b);
    a.hit();
    assert_ne!(a, b);
    b.hit();
    assert_eq!(a, b);
    b.miss();
    assert_ne!(a, b);
}

#[test]
fn a_copy_is_a_snapshot() {
    let mut status = CacheStatus::new();
    status.hit();
    let snapshot = status;
    status.miss();
    assert_eq!(snapshot.hits(), 1);
    assert_eq!(snapshot.misses(), 0);
    assert_eq!(status.misses(), 1);
}
