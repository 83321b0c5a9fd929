use clipr::image_cache::ImageCache;

#[test]
fn cache_holds_most_recent_decodes() {
    let mut cache = ImageCache::new(3);
    for id in 1..=5u64 {
        cache.record_result(id, Some(id * 10));
    }
    assert_eq!(cache.len(), 3);
    assert!(!cache.contains(1) && !cache.contains(2));
    assert!(cache.contains(3) && cache.contains(4) && cache.contains(5));
}

#[test]
fn get_counts_as_use_and_peek_does_not() {
    let mut cache = ImageCache::new(2);
    cache.insert(1, 100);
    cache.insert(2, 200);
    assert_eq!(cache.peek(1), Some(100));
    assert_eq!(cache.insert(3, 300), Some(100));
    assert_eq!(cache.get(2), Some(200));
    assert_eq!(cache.insert(4, 400), Some(300));
    assert!(cache.contains(2) && cache.contains(4));
    assert_eq!(cache.get(9), None);
}

#[test]
fn failed_decode_is_not_cached_and_zero_capacity_uses_default() {
    let mut cache = ImageCache::new(0);
    assert_eq!(cache.record_result(1, None), None);
    assert!(cache.needs_decode(1, true));
    assert!(!cache.needs_decode(1, false));
    for id in 0..25u64 {
        cache.insert(id, id);
    }
    assert_eq!(cache.len(), 20);
    assert!(!cache.needs_decode(24, true));
    assert_eq!(cache.insert(24, 7), Some(24));
}
