use ttl_cache::cache::Cache;

#[test]
fn test_set() {
    let mut cache = Cache::new();
    cache.set("key".to_owned(), "value".to_owned(), 10, 0);
    assert_eq!(cache.get("key", 0), Some("value".to_string()));
}

#[test]
fn test_get() {
    let mut cache = Cache::new();
    cache.set("key".to_owned(), "value".to_owned(), 10, 0);
    assert_eq!(cache.get("key", 0), Some("value".to_string()));
}

#[test]
fn test_get_or_set() {
    let mut cache = Cache::new();
    let value = cache.get_or_set("key".to_owned(), "value".to_owned(), 10, 0);
    assert_eq!(value, "value".to_string());
}

#[test]
fn test_expire() {
    let mut cache = Cache::new();
    let ttl: u64 = 2;
    cache.set("key".to_owned(), "value".to_owned(), ttl, 0);
    assert_eq!(cache.get("key", 0), Some("value".to_string()));
    assert_eq!(cache.get("key", 1), Some("value".to_string()));
    assert_eq!(cache.get("key", 3), None);
}

#[test]
fn test_expire_all() {
    let mut cache = Cache::new();
    let ttl: u64 = 1;
    cache.set("key".to_owned(), "value".to_owned(), ttl, 0);
    cache.set("key2".to_owned(), "value2".to_owned(), ttl, 0);
    cache.expire_all(2);
    assert_eq!(cache.get("key", 2), None);
    assert_eq!(cache.get("key2", 2), None);
}

#[test]
fn test_refresh() {
    let key = "key".to_owned();
    let mut cache = Cache::new();
    let ttl: u64 = 10;
    cache.set(key.clone(), "value".to_owned(), ttl, 0);
    assert_eq!(cache.refresh(&key, 10, 2), true);
    cache.expire(&key, 2);
    assert_eq!(cache.refresh("key", 10, 2), false);
}

#[test]
fn test_clear() {
    let mut cache = Cache::new();
    cache.set("key".to_owned(), "value".to_owned(), 10, 0);
    cache.set("key2".to_owned(), "value2".to_owned(), 10, 0);
    cache.clear();
    assert_eq!(cache.get("key", 0), None);
    assert_eq!(cache.get("key2", 0), None);
}
