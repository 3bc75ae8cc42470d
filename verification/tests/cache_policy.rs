use vectra::cache::{estimate_entry_bytes, Cache, CacheEntry};
use vectra::codec::decode_store;
use vectra::errors::EngineError;
use vectra::meta::{MetadataEntry, MetadataValue};
use vectra::record::Vector;
use vectra::store::Database;

fn bits(vals: &[f64]) -> Vec<u64> {
    vals.iter().map(|v| v.to_bits()).collect()
}

fn filled_db(name: &str, dim: usize, records: usize) -> Database {
    let mut db = Database::new(name.to_string(), dim);
    for _ in 0..records {
        let vals: Vec<u64> = vec![1.25f64.to_bits(); dim];
        db.insert(Vector::new(vals, Vec::new())).unwrap();
    }
    db
}

fn names(cache: &Cache) -> Vec<String> {
    cache.entries.iter().map(|e| e.name.clone()).collect()
}

#[test]
fn entry_estimate_counts_values_and_metadata() {
    let mut db = Database::new("e".to_string(), 2);
    let meta = vec![
        MetadataEntry::new("key".to_string(), MetadataValue::String("abcd".to_string())),
        MetadataEntry::new("n".to_string(), MetadataValue::Integer(7)),
    ];
    db.insert(Vector::new(bits(&[1.0, 2.0]), meta)).unwrap();
    let entry = CacheEntry { name: "e".to_string(), store: db, last_access: 0, dirty: false };
    // 2 components * 8 bytes + ("key" + weight 4) + ("n" + weight 4)
    assert_eq!(estimate_entry_bytes(&entry), 16 + 3 + 4 + 1 + 4);
}

#[test]
fn create_refuses_duplicate_names() {
    let mut cache = Cache::new();
    let bytes = cache.create("a".to_string(), 2, 0).unwrap();
    let db = decode_store(&bytes).unwrap();
    assert_eq!(db.name, "a");
    assert_eq!(db.dimension, 2);
    assert_eq!(db.vectors.len(), 0);
    assert_eq!(cache.create("a".to_string(), 3, 1), Err(EngineError::AlreadyExists));
}

#[test]
fn insert_vector_counts_and_marks_dirty() {
    let mut cache = Cache::new();
    cache.admit_fresh("a".to_string(), 2, 0);
    let total = cache
        .insert_vector("a", bits(&[1.0, 2.0]), Vec::new(), 5)
        .unwrap();
    assert_eq!(total, 1);
    let dirty = cache.dirty_names();
    assert_eq!(dirty.len(), 1);
    assert_eq!(dirty[0], "a");
    let store = cache.get_store("a").unwrap();
    assert_eq!(store.vectors.len(), 1);
    assert_eq!(store.vectors[0].metadata().last().unwrap().key(), "created_at");
}

#[test]
fn insert_vector_rejects_wrong_dimension() {
    let mut cache = Cache::new();
    cache.admit_fresh("a".to_string(), 2, 0);
    let r = cache.insert_vector("a", bits(&[1.0]), Vec::new(), 5);
    assert_eq!(r, Err(EngineError::DimensionMismatch));
    assert_eq!(cache.get_store("a").unwrap().vectors.len(), 0);
    assert_eq!(cache.dirty_names().len(), 0);
}

#[test]
fn insert_vector_requires_residency() {
    let mut cache = Cache::new();
    let r = cache.insert_vector("missing", bits(&[1.0]), Vec::new(), 5);
    assert_eq!(r, Err(EngineError::NotFound));
}

#[test]
fn admit_loaded_rejects_corrupt_bytes() {
    let mut cache = Cache::new();
    let r = cache.admit_loaded("a".to_string(), &vec![1, 2, 3], 0);
    assert_eq!(r, Err(EngineError::CorruptData));
    assert!(!cache.contains("a"));
}

#[test]
fn clear_dirty_after_persist() {
    let mut cache = Cache::new();
    cache.admit_fresh("a".to_string(), 1, 0);
    cache.insert_vector("a", bits(&[1.0]), Vec::new(), 1).unwrap();
    let bytes = cache.encode_resident("a").unwrap();
    let db = decode_store(&bytes).unwrap();
    assert_eq!(db.vectors.len(), 1);
    cache.clear_dirty("a");
    assert_eq!(cache.dirty_names().len(), 0);
}

#[test]
fn ttl_sweep_removes_only_idle_clean_entries() {
    let mut cache = Cache::new();
    cache.admit_fresh("old_clean".to_string(), 1, 0);
    cache.admit_fresh("old_dirty".to_string(), 1, 0);
    cache.insert_vector("old_dirty", bits(&[1.0]), Vec::new(), 0).unwrap();
    cache.admit_fresh("fresh".to_string(), 1, 90);
    // huge budget: only the TTL stage can remove anything
    cache.evict_pass(usize::MAX, 10, 100);
    let left = names(&cache);
    assert!(!left.contains(&"old_clean".to_string()));
    assert!(left.contains(&"old_dirty".to_string()));
    assert!(left.contains(&"fresh".to_string()));
}

#[test]
fn dirty_entry_survives_ttl_regardless_of_age() {
    let mut cache = Cache::new();
    cache.admit_fresh("d".to_string(), 1, 0);
    cache.insert_vector("d", bits(&[1.0]), Vec::new(), 0).unwrap();
    cache.evict_pass(usize::MAX, 0, u64::MAX);
    assert!(cache.contains("d"));
}

#[test]
fn budget_sweep_brings_estimate_under_budget() {
    let mut cache = Cache::new();
    for (i, name) in ["a", "b", "c"].iter().enumerate() {
        cache.entries.push(CacheEntry {
            name: name.to_string(),
            store: filled_db(name, 4, 10),
            last_access: i as u64,
            dirty: false,
        });
    }
    let total = cache.total_estimated_bytes();
    assert_eq!(total, 3 * 10 * 4 * 8);
    let budget = total / 2;
    cache.evict_pass(budget, u64::MAX, 0);
    assert!(cache.total_estimated_bytes() <= budget);
    // the least recently accessed clean entries left first
    assert_eq!(names(&cache), vec!["c".to_string()]);
}

#[test]
fn budget_sweep_evicts_clean_before_dirty() {
    let mut cache = Cache::new();
    cache.entries.push(CacheEntry {
        name: "dirty_old".to_string(),
        store: filled_db("dirty_old", 4, 10),
        last_access: 0,
        dirty: true,
    });
    cache.entries.push(CacheEntry {
        name: "clean_new".to_string(),
        store: filled_db("clean_new", 4, 10),
        last_access: 100,
        dirty: false,
    });
    let budget = cache.total_estimated_bytes() - 1;
    cache.evict_pass(budget, u64::MAX, 0);
    assert_eq!(names(&cache), vec!["dirty_old".to_string()]);
}

#[test]
fn budget_sweep_takes_least_recent_dirty_when_only_dirty_remain() {
    let mut cache = Cache::new();
    for (name, last) in [("d1", 50u64), ("d2", 10u64)] {
        cache.entries.push(CacheEntry {
            name: name.to_string(),
            store: filled_db(name, 4, 10),
            last_access: last,
            dirty: true,
        });
    }
    let budget = cache.total_estimated_bytes() - 1;
    cache.evict_pass(budget, u64::MAX, 100);
    assert_eq!(names(&cache), vec!["d1".to_string()]);
}

#[test]
fn eviction_leaves_everything_under_budget_untouched() {
    let mut cache = Cache::new();
    cache.admit_fresh("a".to_string(), 1, 10);
    cache.insert_vector("a", bits(&[1.0]), Vec::new(), 10).unwrap();
    cache.evict_pass(usize::MAX, u64::MAX, 11);
    assert!(cache.contains("a"));
    assert_eq!(cache.get_store("a").unwrap().vectors.len(), 1);
}

#[test]
fn check_query_reports_each_failure() {
    let mut cache = Cache::new();
    assert_eq!(cache.check_query("a", 2, "eu"), Err(EngineError::NotFound));
    cache.admit_fresh("a".to_string(), 2, 0);
    assert_eq!(cache.check_query("a", 3, "eu"), Err(EngineError::DimensionMismatch));
    assert_eq!(cache.check_query("a", 2, "l2"), Err(EngineError::UnknownMetric));
    assert!(matches!(cache.check_query("a", 2, "cs"), Ok(vectra::metric::Metric::Cosine)));
}

#[test]
fn insert_persist_reload_round_trips_through_the_cache() {
    let mut cache = Cache::new();
    cache.admit_fresh("rt".to_string(), 2, 0);
    let values = vec![0.1f64.to_bits(), (-7.25f64).to_bits()];
    let meta = vec![MetadataEntry::new(
        "source".to_string(),
        MetadataValue::String("unit".to_string()),
    )];
    cache.insert_vector("rt", values.clone(), meta, 1).unwrap();
    let bytes = cache.encode_resident("rt").unwrap();

    let mut reloaded = Cache::new();
    reloaded.admit_loaded("rt".to_string(), &bytes, 2).unwrap();
    let store = reloaded.get_store("rt").unwrap();
    assert_eq!(store.vectors.len(), 1);
    assert_eq!(store.vectors[0].data(), &values);
    let m = store.vectors[0].metadata();
    assert_eq!(m[0].key(), "source");
    assert_eq!(m[1].key(), "created_at");
}

#[test]
fn ttl_boundary_age_exactly_ttl_is_kept() {
    let mut cache = Cache::new();
    cache.admit_fresh("edge".to_string(), 1, 0);
    // removal wants age strictly greater than the TTL
    cache.evict_pass(usize::MAX, 10, 10);
    assert!(cache.contains("edge"));
    cache.evict_pass(usize::MAX, 10, 11);
    assert!(!cache.contains("edge"));
}

#[test]
fn budget_exactly_met_evicts_nothing() {
    let mut cache = Cache::new();
    cache.entries.push(CacheEntry {
        name: "a".to_string(),
        store: filled_db("a", 4, 10),
        last_access: 0,
        dirty: false,
    });
    let total = cache.total_estimated_bytes();
    cache.evict_pass(total, u64::MAX, 0);
    assert!(cache.contains("a"));
}

#[test]
fn touch_refreshes_last_access() {
    let mut cache = Cache::new();
    cache.admit_fresh("a".to_string(), 1, 0);
    cache.touch("a", 99);
    // now - last_access == 1 <= ttl, so the entry survives a TTL sweep
    cache.evict_pass(usize::MAX, 1, 100);
    assert!(cache.contains("a"));
}
