use std::cell::Cell;

use meterm::hash_abuse::ContentCache;

#[test]
fn identical_content_builds_once() {
    let mut cache: ContentCache<u32> = ContentCache::new();
    let calls = Cell::new(0u32);
    let key = b"the same layout request".to_vec();
    let first = cache.get_or_compute(&key, || {
        calls.set(calls.get() + 1);
        41
    });
    let second = cache.get_or_compute(&key, || {
        calls.set(calls.get() + 1);
        99
    });
    assert_eq!(first, 41);
    assert_eq!(second, 41);
    assert_eq!(calls.get(), 1);
}

#[test]
fn different_content_builds_again() {
    let mut cache: ContentCache<u32> = ContentCache::new();
    let calls = Cell::new(0u32);
    let a = cache.get_or_compute(&b"first".to_vec(), || {
        calls.set(calls.get() + 1);
        1
    });
    let b = cache.get_or_compute(&b"second".to_vec(), || {
        calls.set(calls.get() + 1);
        2
    });
    assert_eq!((a, b), (1, 2));
    assert_eq!(calls.get(), 2);
    assert_eq!(cache.len(), 2);
}

#[test]
fn reset_drops_every_entry() {
    let mut cache: ContentCache<u32> = ContentCache::new();
    cache.get_or_compute(&b"kept until reset".to_vec(), || 7);
    assert_eq!(cache.len(), 1);
    cache.reset();
    assert_eq!(cache.len(), 0);
    let calls = Cell::new(0u32);
    let again = cache.get_or_compute(&b"kept until reset".to_vec(), || {
        calls.set(calls.get() + 1);
        8
    });
    assert_eq!(again, 8);
    assert_eq!(calls.get(), 1);
}
