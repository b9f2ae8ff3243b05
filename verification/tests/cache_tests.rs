use tow_dispatch::cache::{TtlCache, VEHICLE_CACHE_CAPACITY, VEHICLE_CACHE_TTL_SECONDS};

#[test]
fn set_then_get_returns_the_value() {
    let mut c: TtlCache<i32> = TtlCache::new(10, 300);
    c.set(7, 42, 100);
    assert_eq!(c.get(7, 100), Some(42));
}

#[test]
fn entry_expires_after_ttl_without_writes() {
    let mut c: TtlCache<bool> = TtlCache::new(10, 300);
    c.set(7, true, 100);
    assert_eq!(c.get(7, 399), Some(true));
    assert_eq!(c.get(7, 400), None);
    assert_eq!(c.get(7, 10_000), None);
}

#[test]
fn miss_returns_none() {
    let c: TtlCache<i32> = TtlCache::new(10, 300);
    assert_eq!(c.get(1, 0), None);
}

#[test]
fn overwrite_refreshes_the_expiration_clock() {
    let mut c: TtlCache<i32> = TtlCache::new(10, 300);
    c.set(7, 1, 100);
    c.set(7, 2, 350);
    assert_eq!(c.get(7, 420), Some(2));
    assert_eq!(c.get(7, 649), Some(2));
    assert_eq!(c.get(7, 650), None);
}

#[test]
fn get_or_insert_populates_on_miss_only() {
    let mut c: TtlCache<i32> = TtlCache::new(10, 300);
    assert_eq!(c.get_or_insert(3, 111, 100), 111);
    assert_eq!(c.get(3, 100), Some(111));
    // A fresh entry wins over the freshly loaded value.
    assert_eq!(c.get_or_insert(3, 222, 150), 111);
    // Once expired, the loaded value repopulates.
    assert_eq!(c.get_or_insert(3, 222, 500), 222);
    assert_eq!(c.get(3, 500), Some(222));
}

#[test]
fn capacity_bound_is_kept_and_fresh_key_resides() {
    let mut c: TtlCache<i32> = TtlCache::new(2, 300);
    c.set(1, 10, 100);
    c.set(2, 20, 110);
    c.set(3, 30, 120);
    assert!(c.len() <= 2);
    assert_eq!(c.get(3, 120), Some(30));
    // The stalest entry made room.
    assert_eq!(c.get(1, 120), None);
    assert_eq!(c.get(2, 120), Some(20));
}

#[test]
fn vehicle_cache_constants_match_the_design() {
    assert_eq!(VEHICLE_CACHE_CAPACITY, 2000);
    assert_eq!(VEHICLE_CACHE_TTL_SECONDS, 300);
}
