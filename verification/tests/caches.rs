use ntfs_reader::cache::{FileInfoCache, HashMapCache, VecCache};

#[test]
fn sparse_cache_stores_and_overwrites() {
    let mut cache = HashMapCache::new();
    assert!(cache.get(7).is_none());
    cache.insert(7, String::from("C:\\a"));
    assert_eq!(cache.get(7).map(|p| p.as_str()), Some("C:\\a"));
    cache.insert(7, String::from("C:\\b"));
    assert_eq!(cache.get(7).map(|p| p.as_str()), Some("C:\\b"));
    assert!(cache.get(8).is_none());
}

#[test]
fn dense_cache_stores_and_overwrites() {
    let mut cache = VecCache::new();
    assert!(cache.get(7).is_none());
    cache.insert(7, String::from("C:\\a"));
    assert_eq!(cache.get(7).map(|p| p.as_str()), Some("C:\\a"));
    cache.insert(7, String::from("C:\\b"));
    assert_eq!(cache.get(7).map(|p| p.as_str()), Some("C:\\b"));
    // Neighbouring slots exist as placeholders but hold nothing.
    assert!(cache.get(6).is_none());
    assert!(cache.get(8).is_none());
}

#[test]
fn dense_cache_memory_tracks_highest_record_number() {
    let mut cache = VecCache::new();
    cache.insert(1000, String::from("C:\\x"));
    // One entry, but the backing storage spans record numbers 0..=1000.
    assert_eq!(cache.0.len(), 1001);
    cache.insert(5, String::from("C:\\y"));
    // A smaller record number does not grow the storage again.
    assert_eq!(cache.0.len(), 1001);
    cache.insert(2000, String::from("C:\\z"));
    assert_eq!(cache.0.len(), 2001);
}

#[test]
fn dense_cache_backing_holds_placeholders_and_keeps_slots() {
    let mut cache = VecCache::new();
    cache.insert(3, String::from("C:\\p"));
    assert_eq!(cache.0.len(), 4);
    cache.insert(1, String::from("C:\\q"));
    // A smaller number neither grows the storage nor disturbs other slots.
    assert_eq!(cache.0.len(), 4);
    assert_eq!(cache.0[0], None);
    assert_eq!(cache.0[1], Some(String::from("C:\\q")));
    assert_eq!(cache.0[2], None);
    assert_eq!(cache.0[3], Some(String::from("C:\\p")));
}

#[test]
fn sparse_cache_memory_tracks_distinct_insertions() {
    let mut cache = HashMapCache::new();
    cache.insert(1_000_000_000, String::from("C:\\x"));
    // However large the record number, the backing map holds one entry.
    assert_eq!(cache.0.len(), 1);
    cache.insert(5, String::from("C:\\y"));
    assert_eq!(cache.0.len(), 2);
    cache.insert(1_000_000_000, String::from("C:\\again"));
    assert_eq!(cache.0.len(), 2);
}
