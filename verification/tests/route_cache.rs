use blindspot::route_cache::{RouteCache, MAX_ENTRIES, TTL_MS};

#[test]
fn read_back_before_expiry() {
    let mut c: RouteCache<u32> = RouteCache::new();
    c.insert("a".to_string(), 7, 1000);
    assert_eq!(c.get("a", 1000), Some(&7));
    assert_eq!(c.get("a", 1000 + TTL_MS - 1), Some(&7));
    assert_eq!(c.get("b", 1000), None);
}

#[test]
fn expired_entry_not_served() {
    let mut c: RouteCache<u32> = RouteCache::new();
    c.insert("a".to_string(), 7, 0);
    assert_eq!(c.get("a", TTL_MS), None);
    assert_eq!(c.len(), 1);
}

#[test]
fn same_key_replaced() {
    let mut c: RouteCache<&str> = RouteCache::new();
    c.insert("k".to_string(), "old", 0);
    c.insert("k".to_string(), "new", 5);
    assert_eq!(c.get("k", 10), Some(&"new"));
    assert_eq!(c.len(), 1);
}

#[test]
fn capacity_is_bounded_and_oldest_goes_first() {
    let mut c: RouteCache<usize> = RouteCache::new();
    for i in 0..MAX_ENTRIES {
        c.insert(format!("k{i}"), i, 0);
    }
    assert_eq!(c.len(), MAX_ENTRIES);
    c.insert("extra".to_string(), 999, 1);
    assert_eq!(c.len(), MAX_ENTRIES);
    assert_eq!(c.get("k0", 2), None);
    assert_eq!(c.get("k1", 2), Some(&1));
    assert_eq!(c.get("extra", 2), Some(&999));
}

#[test]
fn full_cache_drops_expired_entries_first() {
    let mut c: RouteCache<usize> = RouteCache::new();
    c.insert("old".to_string(), 0, 0);
    for i in 1..MAX_ENTRIES {
        c.insert(format!("k{i}"), i, TTL_MS);
    }
    // at TTL_MS + 1, "old" has expired: it alone is dropped
    c.insert("new".to_string(), 1, TTL_MS + 1);
    assert_eq!(c.len(), MAX_ENTRIES);
    assert_eq!(c.get("k1", TTL_MS + 2), Some(&1));
    assert_eq!(c.get("new", TTL_MS + 2), Some(&1));
}

#[test]
fn clear_empties() {
    let mut c: RouteCache<u8> = RouteCache::new();
    c.insert("a".to_string(), 1, 0);
    c.clear();
    assert_eq!(c.len(), 0);
    assert_eq!(c.get("a", 0), None);
}

#[test]
fn read_after_other_inserts_until_expiry() {
    let mut c: RouteCache<u32> = RouteCache::new();
    c.insert("a".to_string(), 1, 100);
    c.insert("b".to_string(), 2, 200);
    c.insert("c".to_string(), 3, 300);
    assert_eq!(c.get("a", 100 + TTL_MS - 1), Some(&1));
    assert_eq!(c.get("a", 100 + TTL_MS), None);
    assert_eq!(c.get("b", 100 + TTL_MS), Some(&2));
    assert_eq!(c.get("never", 300), None);
}

#[test]
fn full_cache_drops_expired_before_oldest_live() {
    let mut c: RouteCache<usize> = RouteCache::new();
    c.insert("old".to_string(), 0, 0);
    for i in 1..MAX_ENTRIES {
        c.insert(format!("k{i}"), i, TTL_MS);
    }
    // at 2 × TTL - 1 only "old" has expired: it alone makes room
    let now = 2 * TTL_MS - 1;
    c.insert("new".to_string(), 7, now);
    assert_eq!(c.len(), MAX_ENTRIES);
    assert_eq!(c.get("k1", now), Some(&1));
    assert_eq!(c.get("new", now), Some(&7));
}
