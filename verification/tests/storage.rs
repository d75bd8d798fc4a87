use cyx::storage::CacheStorage;
use tempfile::TempDir;

fn create_test_storage() -> (CacheStorage, TempDir) {
    let temp_dir = TempDir::new().unwrap();
    let storage = CacheStorage::new(temp_dir.path().to_str().unwrap()).unwrap();
    (storage, temp_dir)
}

#[test]
fn test_store_and_get() {
    let (mut storage, _temp) = create_test_storage();

    let hash = "testhash123";
    storage
        .store(
            "original query",
            "normalized query",
            hash,
            "test response",
            "TestProvider",
            "test-model",
        )
        .unwrap();

    let cached = storage.get_by_hash(hash).unwrap();
    assert!(cached.is_some());

    let cached = cached.unwrap();
    assert_eq!(cached.query_original, "original query");
    assert_eq!(cached.query_normalized, "normalized query");
    assert_eq!(cached.response, "test response");
    assert_eq!(cached.provider, "TestProvider");
    assert!(cached.access_count >= 1);
}

#[test]
fn test_duplicate_hash_updates() {
    let (mut storage, _temp) = create_test_storage();

    let hash = "samehash";
    storage
        .store("query1", "norm1", hash, "response1", "P1", "m1")
        .unwrap();
    storage
        .store("query2", "norm2", hash, "response2", "P2", "m2")
        .unwrap();

    let cached = storage.get_by_hash(hash).unwrap().unwrap();
    assert_eq!(cached.response, "response2");
    assert_eq!(cached.provider, "P2");
    assert!(cached.access_count >= 2);
}

#[test]
fn test_list_all() {
    let (mut storage, _temp) = create_test_storage();

    storage.store("q1", "n1", "h1", "r1", "p", "m").unwrap();
    storage.store("q2", "n2", "h2", "r2", "p", "m").unwrap();
    storage.store("q3", "n3", "h3", "r3", "p", "m").unwrap();

    let all = storage.list_all(None).unwrap();
    assert_eq!(all.len(), 3);

    let limited = storage.list_all(Some(2)).unwrap();
    assert_eq!(limited.len(), 2);
}

#[test]
fn test_stats() {
    let (mut storage, _temp) = create_test_storage();

    storage
        .store("q1", "n1", "h1", "response1", "p", "m")
        .unwrap();
    storage
        .store("q2", "n2", "h2", "response2", "p", "m")
        .unwrap();

    let stats = storage.stats().unwrap();
    assert_eq!(stats.total_entries, 2);
    assert!(stats.total_size_bytes > 0);
    assert!(stats.newest_entry.is_some());
}

#[test]
fn test_hit_miss_tracking() {
    let (mut storage, _temp) = create_test_storage();

    storage.store("q1", "n1", "h1", "r1", "p", "m").unwrap();

    storage.get_by_hash("h1").unwrap();
    storage.get_by_hash("nonexistent").unwrap();

    let stats = storage.stats().unwrap();
    assert_eq!(stats.hit_count, 1);
    assert_eq!(stats.miss_count, 1);
}

#[test]
fn test_clear() {
    let (mut storage, _temp) = create_test_storage();

    storage.store("q1", "n1", "h1", "r1", "p", "m").unwrap();
    storage.store("q2", "n2", "h2", "r2", "p", "m").unwrap();

    let count = storage.clear().unwrap();
    assert_eq!(count, 2);

    let stats = storage.stats().unwrap();
    assert_eq!(stats.total_entries, 0);
    assert_eq!(stats.hit_count, 0);
    assert_eq!(stats.miss_count, 0);
}

#[test]
fn test_remove_by_hash() {
    let (mut storage, _temp) = create_test_storage();

    storage.store("q1", "n1", "h1", "r1", "p", "m").unwrap();

    let removed = storage.remove_by_hash("h1").unwrap();
    assert!(removed);

    let cached = storage.get_by_hash("h1").unwrap();
    assert!(cached.is_none());

    let removed_again = storage.remove_by_hash("h1").unwrap();
    assert!(!removed_again);
}

#[test]
fn test_access_count_increments() {
    let (mut storage, _temp) = create_test_storage();

    storage.store("q", "n", "h", "r", "p", "m").unwrap();

    for _ in 0..5 {
        storage.get_by_hash("h").unwrap();
    }

    let cached = storage.get_by_hash("h").unwrap().unwrap();
    assert!(cached.access_count >= 6);
}

#[test]
fn test_counters_n_hits_m_misses() {
    let (mut storage, _temp) = create_test_storage();

    for i in 0..4 {
        let h = format!("hash{}", i);
        storage.store("q", "n", &h, "r", "p", "m").unwrap();
    }
    for _ in 0..3 {
        storage.get_by_hash("hash0").unwrap();
    }
    for _ in 0..2 {
        storage.get_by_hash("missing").unwrap();
    }

    let stats = storage.stats().unwrap();
    assert_eq!(stats.total_entries, 4);
    assert_eq!(stats.hit_count, 3);
    assert_eq!(stats.miss_count, 2);
}

#[test]
fn test_search_similar_threshold_and_order() {
    let (mut storage, _temp) = create_test_storage();

    storage
        .store("nmap scan", "nmap scan", "h1", "r1", "p", "m")
        .unwrap();
    storage
        .store("nmap scan fast", "nmap scan fast", "h2", "r2", "p", "m")
        .unwrap();
    storage
        .store("bake a cake", "bake cake", "h3", "r3", "p", "m")
        .unwrap();

    // threshold 0.5 in fixed point
    let threshold = cyx::embedder::SCALE / 2;
    let results = storage.search_similar("nmap scan", threshold, 10).unwrap();
    assert!(!results.is_empty());
    for (_, score) in &results {
        assert!(*score >= threshold);
    }
    for pair in results.windows(2) {
        assert!(pair[0].1 >= pair[1].1);
    }
    // the identical text is the best match with similarity 1.0
    assert_eq!(results[0].0.query_hash, "h1");
    assert_eq!(results[0].1, cyx::embedder::SCALE);

    let limited = storage.search_similar("nmap scan", 0, 1).unwrap();
    assert!(limited.len() <= 1);
}

#[test]
fn test_cleanup_old_entries_keeps_new_rows() {
    let (mut storage, _temp) = create_test_storage();

    storage.store("q1", "n1", "h1", "r1", "p", "m").unwrap();
    storage.store("q2", "n2", "h2", "r2", "p", "m").unwrap();
    storage.get_by_hash("missing").unwrap();

    // both rows were created just now, far inside a 30-day window
    let removed = storage.cleanup_old_entries(30).unwrap();
    assert_eq!(removed, 0);

    let stats = storage.stats().unwrap();
    assert_eq!(stats.total_entries, 2);
    assert_eq!(stats.miss_count, 1);
}

#[test]
fn test_persistence_across_instances() {
    let temp_dir = TempDir::new().unwrap();
    let dir = temp_dir.path().to_str().unwrap().to_string();
    {
        let mut storage = CacheStorage::new(&dir).unwrap();
        storage
            .store("q1", "n1", "h1", "r1", "prov", "model")
            .unwrap();
    }
    let mut reopened = CacheStorage::new(&dir).unwrap();
    let cached = reopened.get_by_hash("h1").unwrap().unwrap();
    assert_eq!(cached.response, "r1");
    assert_eq!(cached.provider, "prov");
}
