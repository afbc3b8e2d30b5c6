// Values that expire.

use lsmdb::clock::{clock_ms, expires_at};
use lsmdb::storage::Storage;
use lsmdb::LsmEngine;

fn open() -> LsmEngine {
    LsmEngine::open(&Storage::new()).unwrap()
}

fn b(s: &str) -> Vec<u8> {
    s.as_bytes().to_vec()
}

fn wait_ms(ms: u64) {
    let start = std::time::Instant::now();
    while start.elapsed() < std::time::Duration::from_millis(ms) {}
}

#[test]
fn key_visible_before_expiry() {
    let mut db = open();
    db.put_with_ttl(b("k"), b("v"), 2_000).unwrap();
    assert_eq!(db.get(b"k").unwrap().as_deref(), Some(b"v".as_ref()));
}

#[test]
fn key_invisible_after_expiry() {
    let mut db = open();
    db.put_with_ttl(b("k"), b("v"), 100).unwrap();
    wait_ms(200);
    assert_eq!(db.get(b"k").unwrap(), None);
}

#[test]
fn zero_ttl_never_expires() {
    let mut db = open();
    db.put_with_ttl(b("k"), b("v"), 0).unwrap();
    wait_ms(50);
    assert_eq!(db.get(b"k").unwrap().as_deref(), Some(b"v".as_ref()));
}

#[test]
fn ttl_key_absent_from_scan_after_expiry() {
    let mut db = open();
    db.put(b("perm"), b("stays")).unwrap();
    db.put_with_ttl(b("temp"), b("gone"), 100).unwrap();
    wait_ms(200);

    let results = db.scan(&[], &[0xffu8]).unwrap();
    let keys: Vec<&[u8]> = results.iter().map(|(k, _)| k.as_slice()).collect();
    assert!(keys.contains(&b"perm".as_ref()));
    assert!(!keys.contains(&b"temp".as_ref()));
}

#[test]
fn ttl_key_absent_from_scan_prefix_after_expiry() {
    let mut db = open();
    db.put_with_ttl(b("cache:a"), b("1"), 100).unwrap();
    db.put_with_ttl(b("cache:b"), b("2"), 100).unwrap();
    db.put(b("cache:c"), b("3")).unwrap();
    wait_ms(200);

    let results = db.scan_prefix(b"cache:").unwrap();
    assert_eq!(results.len(), 1);
    assert_eq!(results[0].0, b"cache:c");
}

#[test]
fn ttl_survives_wal_recovery() {
    let mut storage = Storage::new();
    {
        let mut db = LsmEngine::open(&storage).unwrap();
        db.put_with_ttl(b("session"), b("alive"), 60_000).unwrap();
        db.put_with_ttl(b("token"), b("dead"), 100).unwrap();
        storage.apply_all(db.take_ops());
    }
    wait_ms(200);
    let db = LsmEngine::open(&storage).unwrap();
    assert_eq!(db.get(b"session").unwrap().as_deref(), Some(b"alive".as_ref()));
    assert_eq!(db.get(b"token").unwrap(), None);
}

#[test]
fn overwriting_expired_key_with_ttl_makes_it_visible() {
    let mut db = open();
    db.put_with_ttl(b("k"), b("old"), 100).unwrap();
    wait_ms(200);
    assert_eq!(db.get(b"k").unwrap(), None);

    db.put_with_ttl(b("k"), b("new"), 5_000).unwrap();
    assert_eq!(db.get(b"k").unwrap().as_deref(), Some(b"new".as_ref()));
}

#[test]
fn snapshot_does_not_see_expired_key() {
    let mut db = open();
    db.put_with_ttl(b("k"), b("v"), 100).unwrap();
    let snap = db.snapshot().unwrap();
    wait_ms(200);

    // the snapshot is frozen; it shows what was there when it was taken
    let _ = snap.get(b"k");
    assert_eq!(db.get(b"k").unwrap(), None);
}

// ---- further cases -------------------------------------------------------------

#[test]
fn a_value_is_seen_until_the_clock_reaches_its_expiry() {
    let mut db = open();
    db.put_until_cf("default", b("k"), b("v"), 1_000).unwrap();
    assert_eq!(db.get_cf_at("default", b"k", 0).unwrap(), Some(b("v")));
    assert_eq!(db.get_cf_at("default", b"k", 999).unwrap(), Some(b("v")));
    assert_eq!(db.get_cf_at("default", b"k", 1_000).unwrap(), None);
    assert_eq!(db.scan_cf_at("default", b"", b"z", 999).unwrap().len(), 1);
    assert_eq!(db.scan_cf_at("default", b"", b"z", 1_000).unwrap().len(), 0);
    assert_eq!(db.scan_prefix_cf_at("default", b"k", 1_000).unwrap().len(), 0);
    assert_eq!(db.iter_cf_at("default", 999).unwrap().collect(), vec![(b("k"), b("v"))]);
    assert!(db.iter_cf_at("default", 1_000).unwrap().collect().is_empty());
    // the write is still the last one to the key
    assert_eq!(db.key_write_seq("default", b"k").unwrap(), Some(1));
}

#[test]
fn an_expired_value_hides_older_ones() {
    let mut db = open();
    db.put(b("k"), b("old")).unwrap();
    db.put_until_cf("default", b("k"), b("new"), 10).unwrap();
    assert_eq!(db.get_cf_at("default", b"k", 11).unwrap(), None);
}

#[test]
fn expiry_times() {
    assert_eq!(expires_at(5, 0), 0);
    assert_eq!(expires_at(5, 10), 15);
    assert_eq!(expires_at(u64::MAX - 1, 10), u64::MAX);
}

#[test]
fn the_clock_is_past_the_year_two_thousand() {
    assert!(lsmdb::clock::now_ms() > 946_684_800_000);
}

#[test]
fn what_a_clock_shows_in_milliseconds() {
    assert_eq!(clock_ms(None), 0);
    assert_eq!(clock_ms(Some(0)), 0);
    assert_eq!(clock_ms(Some(1_700_000_000_123)), 1_700_000_000_123);
    assert_eq!(clock_ms(Some(u64::MAX as u128)), u64::MAX);
    assert_eq!(clock_ms(Some(u64::MAX as u128 + 6)), 5);
}
