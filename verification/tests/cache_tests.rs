use std::time::Duration;
use ttl_cache::Cache;

#[test]
fn scenario_capacity_three() {
    let mut cache = Cache::new(3, Duration::from_secs(3600));
    cache.insert(String::from("a"), 1);
    cache.insert(String::from("b"), 2);
    cache.insert(String::from("c"), 3);
    assert_eq!(cache.len(), 3);
    cache.insert(String::from("d"), 4);
    assert!(cache.get(String::from("a")).is_none());
    let d = cache.get(String::from("d")).unwrap();
    assert_eq!(*d.get(), 4);
    assert_eq!(cache.len(), 3);
}

#[test]
fn insert_then_get_fresh() {
    let mut cache = Cache::new(2, Duration::from_secs(3600));
    cache.insert(String::from("k"), 7);
    let v = cache.get(String::from("k")).unwrap();
    assert_eq!(*v.get(), 7);
    assert!(!v.is_expired());
}

#[test]
fn never_inserted_absent() {
    let mut cache = Cache::new(4, Duration::from_secs(3600));
    assert!(cache.get(String::from("missing")).is_none());
    cache.insert(String::from("x"), 1);
    assert!(cache.get(String::from("y")).is_none());
}

#[test]
fn len_never_exceeds_capacity() {
    let mut cache = Cache::new(2, Duration::from_secs(3600));
    let keys = ["a", "b", "c", "d", "e"];
    for (i, k) in keys.iter().enumerate() {
        cache.insert(String::from(*k), i as u64);
        assert!(cache.len() <= cache.capacity());
    }
    assert_eq!(cache.capacity(), 2);
}

#[test]
fn capacity_eviction_order() {
    let mut cache = Cache::new(3, Duration::from_secs(3600));
    cache.insert(String::from("k1"), 1);
    cache.insert(String::from("k2"), 2);
    cache.insert(String::from("k3"), 3);
    cache.insert(String::from("k4"), 4);
    assert!(cache.get(String::from("k1")).is_none());
    assert_eq!(*cache.get(String::from("k2")).unwrap().get(), 2);
    assert_eq!(*cache.get(String::from("k3")).unwrap().get(), 3);
    assert_eq!(*cache.get(String::from("k4")).unwrap().get(), 4);
    assert_eq!(cache.len(), 3);
}

#[test]
fn capacity_one() {
    let mut cache = Cache::new(1, Duration::from_secs(3600));
    cache.insert(String::from("a"), 1);
    assert_eq!(cache.len(), 1);
    cache.insert(String::from("b"), 2);
    assert!(cache.get(String::from("a")).is_none());
    assert_eq!(*cache.get(String::from("b")).unwrap().get(), 2);
    assert_eq!(cache.len(), 1);
}

#[test]
fn expired_entry_swept() {
    let mut cache = Cache::new(2, Duration::from_nanos(1000));
    // instants well past anything the construction hint can have recorded
    let base: u64 = 1_000_000_000;
    cache.insert_at(String::from("old"), 1, base);
    // beyond the TTL: the sweep this insert triggers flushes the record
    cache.insert_at(String::from("new"), 2, base + 2000);
    assert!(cache.get_at(String::from("old"), base + 2001).is_none());
    assert!(cache.get_at(String::from("new"), base + 2001).is_some());
    assert_eq!(cache.len(), 1);
}

#[test]
fn expired_snapshot_flagged() {
    let mut cache = Cache::new(2, Duration::from_nanos(1000));
    let base: u64 = 1_000_000_000;
    cache.insert_at(String::from("k"), 9, base);
    let v = cache.get_at(String::from("k"), base + 5000).unwrap();
    assert!(v.is_expired());
    assert_eq!(*v.get(), 9);
    assert_eq!(v.expire_at(), base + 1000);
    // the lookup's own sweep has since retired the entry
    assert!(cache.get_at(String::from("k"), base + 5001).is_none());
}

#[test]
fn expiration_instant_exact() {
    let mut cache = Cache::new(2, Duration::from_secs(1));
    let base: u64 = 1_000_000_000;
    cache.insert_at(String::from("t"), 1, base);
    let v = cache.get_at(String::from("t"), base).unwrap();
    assert_eq!(v.expire_at(), base + 1_000_000_000);
    assert!(!v.is_expired());
}

#[test]
fn overwrite_updates_value() {
    let mut cache = Cache::new(3, Duration::from_secs(3600));
    cache.insert(String::from("k"), 1);
    cache.insert(String::from("k"), 2);
    assert_eq!(*cache.get(String::from("k")).unwrap().get(), 2);
    // the arrival ring counts records, and both inserts left one
    assert_eq!(cache.len(), 2);
}

#[test]
fn snapshot_accessors() {
    let mut cache = Cache::new(2, Duration::from_secs(3600));
    cache.insert(String::from("a"), 10);
    let mut v = cache.get(String::from("a")).unwrap();
    *v.get_mut() = 11;
    assert_eq!(*v.get(), 11);
    // the stored copy is untouched: the snapshot is detached
    let again = cache.get(String::from("a")).unwrap();
    assert_eq!(again.into_inner(), 10);
    assert!(!v.is_expired());
}
