use rocket_file_cache::{
    default_priority_function, Cache, CacheInvalidationError, DefaultPriority, FileStats,
};
use std::sync::Arc;

const MEG1: usize = 1024 * 1024;
const MEG2: usize = MEG1 * 2;
const MEG5: usize = MEG1 * 5;
const MEG10: usize = MEG1 * 10;

#[derive(Debug)]
enum Served {
    Cached(Arc<Vec<u8>>),
    Passthrough,
}

fn bytes(size: usize, seed: u8) -> Vec<u8> {
    let mut v = vec![0u8; size];
    for (i, b) in v.iter_mut().enumerate() {
        *b = (i as u8).wrapping_mul(31).wrapping_add(seed);
    }
    v
}

fn key(name: &str) -> String {
    name.to_string()
}

/// Admission of a file the cache does not hold, with `content` standing for the backing store.
fn offer(cache: &mut Cache<DefaultPriority>, path: &String, content: &Vec<u8>) -> Served {
    match cache.try_insert(path, content.len()) {
        Ok(()) => match cache.insert_file(path, content.clone()) {
            Ok(file) => Served::Cached(file),
            Err(_) => Served::Passthrough,
        },
        Err(_) => Served::Passthrough,
    }
}

/// A whole request: the cached bytes where the cache holds them, else an admission attempt.
fn request(cache: &mut Cache<DefaultPriority>, path: &String, content: &Vec<u8>) -> Served {
    match cache.get(path) {
        Some(file) => Served::Cached(file),
        None => offer(cache, path, content),
    }
}

fn cached_bytes(served: Served) -> Arc<Vec<u8>> {
    match served {
        Served::Cached(file) => file,
        Served::Passthrough => panic!("expected the cached file"),
    }
}

#[test]
fn file_exceeds_size_limit() {
    let mut cache = Cache::new(MEG1 * 8);
    let path_10m = key("meg10.txt");
    assert_eq!(
        cache.try_insert(&path_10m, MEG10),
        Err(CacheInvalidationError::NoMoreFilesToRemove)
    );
    assert_eq!(cache.used_bytes(), 0);
}

#[test]
fn file_replaces_other_file() {
    let path_1m = key("meg1.txt");
    let path_5m = key("meg5.txt");
    let file_1m = bytes(MEG1, 1);
    let file_5m = bytes(MEG5, 5);
    let mut cache = Cache::new(5500000);

    assert_eq!(*cached_bytes(offer(&mut cache, &path_5m, &file_5m)), file_5m);
    assert!(matches!(offer(&mut cache, &path_1m, &file_1m), Served::Passthrough));
    assert!(matches!(offer(&mut cache, &path_1m, &file_1m), Served::Passthrough));
    assert_eq!(*cached_bytes(offer(&mut cache, &path_1m, &file_1m)), file_1m);
    assert!(!cache.contains_key(&path_5m));
    assert_eq!(cache.used_bytes(), MEG1);
}

#[test]
fn new_file_replaces_lowest_priority_file() {
    let path_1m = key("meg1.txt");
    let path_2m = key("meg2.txt");
    let path_5m = key("meg5.txt");
    let file_1m = bytes(MEG1, 1);
    let file_2m = bytes(MEG2, 2);
    let file_5m = bytes(MEG5, 5);
    let mut cache = Cache::new(MEG1 * 7 + 2000);

    assert_eq!(*cached_bytes(request(&mut cache, &path_5m, &file_5m)), file_5m);
    assert_eq!(*cached_bytes(request(&mut cache, &path_2m, &file_2m)), file_2m);
    assert!(matches!(request(&mut cache, &path_1m, &file_1m), Served::Passthrough));
    // sqrt(1 MiB) * 2 accesses outweighs sqrt(2 MiB) * 1 access.
    assert_eq!(*cached_bytes(request(&mut cache, &path_1m, &file_1m)), file_1m);

    assert!(cache.contains_key(&path_1m));
    assert!(cache.contains_key(&path_5m));
    assert!(!cache.contains_key(&path_2m));
}

#[test]
fn remove_file() {
    let mut cache = Cache::new(MEG1 * 10);
    let path_5m = key("meg5.txt");
    let file_5m = bytes(MEG5, 5);

    assert_eq!(*cached_bytes(request(&mut cache, &path_5m, &file_5m)), file_5m);
    cache.remove(&path_5m);
    assert!(cache.contains_key(&path_5m) == false);
}

#[test]
fn refresh_file() {
    let mut cache = Cache::new(MEG1 * 10);
    let path_5m = key("meg5.txt");
    let file_5m = bytes(MEG5, 5);

    assert_eq!(*cached_bytes(request(&mut cache, &path_5m, &file_5m)), file_5m);
    assert_eq!(cached_bytes(request(&mut cache, &path_5m, &file_5m)).len(), MEG5);

    let grown = bytes(MEG10, 10);
    assert!(cache.refresh(&path_5m, grown.clone()));
    assert_eq!(cached_bytes(request(&mut cache, &path_5m, &grown)).len(), MEG10);
}

#[test]
fn refresh_keeps_access_count() {
    let mut cache = Cache::new(MEG1 * 10);
    let path = key("grows.txt");
    let small = bytes(MEG5, 5);
    request(&mut cache, &path, &small);
    request(&mut cache, &path, &small);
    assert_eq!(cache.access_count(&path), 2);

    assert!(cache.refresh(&path, bytes(MEG10, 10)));
    assert_eq!(cache.access_count(&path), 2);
    assert_eq!(cache.used_bytes(), MEG10);
    assert_eq!(
        cache.file_stats(&path),
        Some(FileStats {
            size: MEG10,
            access_count: 2,
            priority: default_priority_function(2, MEG10),
        })
    );
}

#[test]
fn refresh_of_uncached_or_too_large_file() {
    let mut cache = Cache::new(MEG1 * 6);
    let path = key("a.txt");
    assert!(!cache.refresh(&path, bytes(10, 0)));
    assert_eq!(cache.used_bytes(), 0);

    request(&mut cache, &path, &bytes(MEG5, 5));
    assert!(!cache.refresh(&path, bytes(MEG10, 10)));
    assert!(!cache.contains_key(&path));
    assert_eq!(cache.access_count(&path), 1);
}

#[test]
fn zero_size_limit_never_caches() {
    let mut cache = Cache::new(0);
    let path = key("any.txt");
    let file = bytes(1000, 3);
    for _ in 0..5 {
        assert!(matches!(request(&mut cache, &path, &file), Served::Passthrough));
        assert_eq!(cache.used_bytes(), 0);
    }
    // An empty file needs no room, so even this cache takes it, and stays at zero bytes.
    let empty = key("empty.txt");
    assert!(matches!(request(&mut cache, &empty, &Vec::new()), Served::Cached(_)));
    assert_eq!(cache.used_bytes(), 0);
}

#[test]
fn hit_path_counts_each_access_once() {
    let mut cache = Cache::new(MEG1);
    let path = key("hit.txt");
    let file = bytes(1000, 7);
    request(&mut cache, &path, &file);
    assert_eq!(cache.access_count(&path), 1);
    for n in 2..6 {
        let served = cache.get(&path).expect("cached");
        assert_eq!(*served, file);
        assert_eq!(cache.access_count(&path), n);
    }
    assert_eq!(cache.file_stats(&path).unwrap().priority, default_priority_function(5, 1000));
}

#[test]
fn get_shares_the_cached_bytes() {
    let mut cache = Cache::new(MEG1);
    let path = key("shared.txt");
    let file = bytes(100, 9);
    let first = cached_bytes(request(&mut cache, &path, &file));
    let second = cache.get(&path).unwrap();
    assert!(Arc::ptr_eq(&first, &second));
    assert_eq!(*second, file);
}

#[test]
fn get_of_uncached_file_changes_nothing() {
    let mut cache = Cache::new(MEG1);
    let path = key("missing.txt");
    assert!(cache.get(&path).is_none());
    assert_eq!(cache.access_count(&path), 0);
}

#[test]
fn remove_resets_count_and_eviction_does_not() {
    let mut cache = Cache::new(3000);
    let old_file = key("old.txt");
    let new_file = key("new.txt");
    request(&mut cache, &old_file, &bytes(2500, 1));
    assert_eq!(cache.access_count(&old_file), 1);
    // 1000 bytes: sqrt(1000) * 2 = 63 > sqrt(2500) = 50 on the second request.
    assert!(matches!(request(&mut cache, &new_file, &bytes(1000, 2)), Served::Passthrough));
    assert!(matches!(request(&mut cache, &new_file, &bytes(1000, 2)), Served::Cached(_)));
    assert!(!cache.contains_key(&old_file));
    assert_eq!(cache.access_count(&old_file), 1);

    cache.remove(&new_file);
    assert_eq!(cache.access_count(&new_file), 0);
    assert!(!cache.contains_key(&new_file));
    assert_eq!(cache.used_bytes(), 0);
}

#[test]
fn eviction_takes_lowest_priorities_first() {
    let mut cache = Cache::new(400);
    let a = key("a");
    let b = key("b");
    let c = key("c");

    request(&mut cache, &a, &bytes(100, 1));
    request(&mut cache, &b, &bytes(100, 2));
    request(&mut cache, &b, &bytes(100, 2));
    request(&mut cache, &c, &bytes(100, 3));
    request(&mut cache, &c, &bytes(100, 3));
    request(&mut cache, &c, &bytes(100, 3));
    assert_eq!(cache.used_bytes(), 300);
    // priorities: a = 10, b = 20, c = 30; the new file needs 150 of the 100 free bytes.
    let victims = cache.make_room_for_new_file(150, 40).unwrap();
    let names: Vec<String> = victims.iter().map(|v| v.path.clone()).collect();
    assert_eq!(names, vec![a.clone(), b.clone()]);
    assert_eq!(cache.used_bytes(), 100);
    assert!(cache.contains_key(&c));

}

#[test]
fn eviction_aborts_when_victims_outweigh_new_file() {
    let mut cache = Cache::new(300);
    let a = key("a");
    let b = key("b");
    request(&mut cache, &a, &bytes(100, 1));
    request(&mut cache, &b, &bytes(100, 2));
    // a and b have priority 10 each: 20 outweighs 15.
    assert_eq!(
        cache.make_room_for_new_file(150, 15).err(),
        Some(CacheInvalidationError::NewPriorityIsNotHighEnough)
    );
    assert_eq!(cache.used_bytes(), 200);
    assert!(cache.contains_key(&a) && cache.contains_key(&b));
    assert_eq!(
        cache.make_room_for_new_file(250, 1000).err(),
        Some(CacheInvalidationError::NoMoreFilesToRemove)
    );
    assert_eq!(cache.used_bytes(), 200);
    assert_eq!(cache.make_room_for_new_file(0, 0).map(|v| v.len()).ok(), Some(0));
}

#[test]
fn size_bounds_send_files_to_the_backing_store() {
    let mut cache = Cache::with_config(MEG1, 10, 1000, DefaultPriority);
    let small = key("small");
    let large = key("large");
    let fine = key("fine");
    assert_eq!(
        cache.try_insert(&small, 9),
        Err(CacheInvalidationError::NewFileSmallerThanMin)
    );
    assert_eq!(
        cache.try_insert(&large, 1001),
        Err(CacheInvalidationError::NewFileLargerThanMax)
    );
    assert_eq!(cache.try_insert(&fine, 1000), Ok(()));
    assert_eq!(cache.access_count(&small), 1);
    assert_eq!(cache.used_bytes(), 0);
    assert_eq!(
        cache.insert_file(&large, bytes(1001, 0)).err(),
        Some(CacheInvalidationError::NewFileLargerThanMax)
    );
    assert!(cache.insert_file(&fine, bytes(1000, 0)).is_ok());
    assert_eq!(cache.used_bytes(), 1000);
    assert_eq!(cache.size_limit(), MEG1);
}

#[test]
fn exact_fill_needs_no_victims() {
    let mut cache = Cache::new(100);
    let a = key("a");
    let b = key("b");
    request(&mut cache, &a, &bytes(40, 1));
    assert!(matches!(request(&mut cache, &b, &bytes(60, 2)), Served::Cached(_)));
    assert_eq!(cache.used_bytes(), 100);
    assert!(cache.contains_key(&a));
}

#[test]
fn default_priority_values() {
    assert_eq!(default_priority_function(1, MEG5), 2290);
    assert_eq!(default_priority_function(1, MEG2), 1448);
    assert_eq!(default_priority_function(2, MEG1), 2048);
    assert_eq!(default_priority_function(0, MEG1), 0);
    assert_eq!(default_priority_function(5, 0), 0);
    assert_eq!(default_priority_function(1, 2), 1);
    assert_eq!(default_priority_function(1, 3), 2);
    assert_eq!(default_priority_function(3, 2), 4);
    assert_eq!(default_priority_function(1, 12), 3);
    assert_eq!(default_priority_function(1, 13), 4);
    assert_eq!(default_priority_function(usize::MAX, usize::MAX), usize::MAX);
    assert_eq!(default_priority_function(1, usize::MAX), 4294967296);
}
