use ttl_cache::cache::Cache;

#[test]
fn set_then_get_is_visible() {
    let mut cache = Cache::new();
    cache.set("a".to_owned(), 7u64, 1, 100);
    assert_eq!(cache.get("a", 100), Some(7u64));
}

#[test]
fn get_or_set_on_empty_equals_set_then_get() {
    let mut via_get_or_set = Cache::new();
    let returned = via_get_or_set.get_or_set("k".to_owned(), "v".to_owned(), 5, 10);
    assert_eq!(returned, "v".to_string());

    let mut via_set = Cache::new();
    via_set.set("k".to_owned(), "v".to_owned(), 5, 10);
    assert_eq!(via_get_or_set.get("k", 12), via_set.get("k", 12));
    assert_eq!(via_get_or_set.len(), via_set.len());
}

#[test]
fn get_or_set_keeps_live_value() {
    let mut cache = Cache::new();
    cache.set("k".to_owned(), "first".to_owned(), 10, 0);
    let returned = cache.get_or_set("k".to_owned(), "second".to_owned(), 99, 3);
    assert_eq!(returned, "first".to_string());
    assert_eq!(cache.get("k", 3), Some("first".to_string()));
    // The time to live was not renewed either: the entry still dies at 10.
    assert_eq!(cache.get("k", 10), None);
}

#[test]
fn get_or_set_replaces_stale_value() {
    let mut cache = Cache::new();
    cache.set("k".to_owned(), "first".to_owned(), 2, 0);
    let returned = cache.get_or_set("k".to_owned(), "second".to_owned(), 5, 2);
    assert_eq!(returned, "second".to_string());
    assert_eq!(cache.get("k", 3), Some("second".to_string()));
}

#[test]
fn get_is_idempotent_and_read_only() {
    let mut cache = Cache::new();
    cache.set("k".to_owned(), "v".to_owned(), 10, 0);
    cache.set("dead".to_owned(), "d".to_owned(), 1, 0);
    let before = cache.len();
    assert_eq!(cache.get("k", 5), Some("v".to_string()));
    assert_eq!(cache.get("k", 5), Some("v".to_string()));
    // Reading a stale entry does not evict it.
    assert_eq!(cache.get("dead", 5), None);
    assert_eq!(cache.len(), before);
}

#[test]
fn expiration_boundary_is_strict() {
    let mut cache = Cache::new();
    cache.set("k".to_owned(), 1u64, 4, 6);
    assert_eq!(cache.get("k", 9), Some(1u64));
    assert_eq!(cache.get("k", 10), None);
    assert_eq!(cache.get("k", 11), None);
}

#[test]
fn zero_ttl_is_immediately_stale() {
    let mut cache = Cache::new();
    cache.set("k".to_owned(), 1u64, 0, 5);
    assert_eq!(cache.get("k", 5), None);
    assert_eq!(cache.len(), 1);
}

#[test]
fn expiry_saturates_at_the_largest_instant() {
    let mut cache = Cache::new();
    cache.set("k".to_owned(), 1u64, u64::MAX, 10);
    assert_eq!(cache.get("k", u64::MAX - 1), Some(1u64));
    // No instant is strictly beyond the saturated expiration, so the entry
    // is stale only at the very last representable instant.
    assert_eq!(cache.get("k", u64::MAX), None);
}

#[test]
fn expire_all_removes_exactly_the_stale_entries() {
    let mut cache = Cache::new();
    cache.set("short".to_owned(), 1u64, 2, 0);
    cache.set("exact".to_owned(), 2u64, 5, 0);
    cache.set("long".to_owned(), 3u64, 9, 0);
    cache.expire_all(5);
    assert_eq!(cache.len(), 1);
    assert_eq!(cache.get("short", 5), None);
    assert_eq!(cache.get("exact", 5), None);
    assert_eq!(cache.get("long", 5), Some(3u64));
}

#[test]
fn refresh_preserves_value_and_renews_liveness() {
    let mut cache = Cache::new();
    cache.set("k".to_owned(), "v".to_owned(), 2, 0);
    // Stale at 7, but still present: refresh resurrects it.
    assert_eq!(cache.get("k", 7), None);
    assert!(cache.refresh("k", 10, 7));
    assert_eq!(cache.get("k", 7), Some("v".to_string()));
    assert_eq!(cache.get("k", 16), Some("v".to_string()));
    assert_eq!(cache.get("k", 17), None);
}

#[test]
fn refresh_of_missing_key_changes_nothing() {
    let mut cache: Cache<u64> = Cache::new();
    cache.set("other".to_owned(), 1u64, 5, 0);
    let before = cache.len();
    assert!(!cache.refresh("missing", 10, 0));
    assert_eq!(cache.len(), before);
}

#[test]
fn clear_empties_the_cache() {
    let mut cache = Cache::new();
    cache.set("a".to_owned(), 1u64, 10, 0);
    cache.set("b".to_owned(), 2u64, 10, 0);
    cache.clear();
    assert_eq!(cache.len(), 0);
    assert_eq!(cache.get("a", 0), None);
    assert_eq!(cache.get("b", 0), None);
}

#[test]
fn expire_returns_live_value_and_removes() {
    let mut cache = Cache::new();
    cache.set("k".to_owned(), "v".to_owned(), 10, 0);
    assert_eq!(cache.expire("k", 3), Some("v".to_string()));
    assert_eq!(cache.len(), 0);
    assert_eq!(cache.get("k", 3), None);
}

#[test]
fn expire_removes_stale_entry_silently() {
    let mut cache = Cache::new();
    cache.set("k".to_owned(), "v".to_owned(), 2, 0);
    assert_eq!(cache.len(), 1);
    assert_eq!(cache.expire("k", 2), None);
    assert_eq!(cache.len(), 0);
}

#[test]
fn expire_of_missing_key_changes_nothing() {
    let mut cache: Cache<String> = Cache::new();
    cache.set("other".to_owned(), "v".to_owned(), 5, 0);
    let before = cache.len();
    assert_eq!(cache.expire("missing", 0), None);
    assert_eq!(cache.len(), before);
}

#[test]
fn overwriting_set_discards_the_old_entry() {
    let mut cache = Cache::new();
    cache.set("k".to_owned(), "old".to_owned(), 100, 0);
    cache.set("k".to_owned(), "new".to_owned(), 2, 50);
    assert_eq!(cache.len(), 1);
    assert_eq!(cache.get("k", 51), Some("new".to_string()));
    // The old, longer expiration is gone with the old entry.
    assert_eq!(cache.get("k", 52), None);
}

#[test]
fn scenario_two_tick_ttl() {
    let mut cache = Cache::new();
    cache.set("a".to_owned(), "x".to_owned(), 2, 0);
    assert_eq!(cache.get("a", 0), Some("x".to_string()));
    assert_eq!(cache.get("a", 1), Some("x".to_string()));
    assert_eq!(cache.get("a", 3), None);
}
