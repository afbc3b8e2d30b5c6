// Range deletion.

use lsmdb::storage::Storage;
use lsmdb::LsmEngine;

fn open() -> LsmEngine {
    LsmEngine::open(&Storage::new()).unwrap()
}

fn b(s: &str) -> Vec<u8> {
    s.as_bytes().to_vec()
}

fn load(db: &mut LsmEngine, n: u32) {
    for i in 0..n {
        db.put(b(&format!("log:{i:04}")), b(&format!("entry-{i}"))).unwrap();
    }
}

#[test]
fn delete_range_removes_keys_in_bounds() {
    let mut db = open();
    load(&mut db, 10);

    db.delete_range(b("log:0003"), b("log:0007")).unwrap();

    for i in 0..10u32 {
        let k = format!("log:{i:04}");
        let present = db.get(k.as_bytes()).unwrap().is_some();
        if (3..7).contains(&i) {
            assert!(!present, "key {k} should be deleted");
        } else {
            assert!(present, "key {k} should be present");
        }
    }
}

#[test]
fn delete_range_exclusive_upper_bound() {
    let mut db = open();
    load(&mut db, 5);

    db.delete_range(b("log:0001"), b("log:0004")).unwrap();

    assert!(db.get(b"log:0004").unwrap().is_some());
    assert!(db.get(b"log:0001").unwrap().is_none());
    assert!(db.get(b"log:0003").unwrap().is_none());
}

#[test]
fn delete_range_with_empty_range_is_no_op() {
    let mut db = open();
    load(&mut db, 5);

    db.delete_range(b("log:0002"), b("log:0002")).unwrap();
    assert!(db.get(b"log:0002").unwrap().is_some());
}

#[test]
fn delete_range_persists_across_reopen() {
    let mut storage = Storage::new();
    {
        let mut db = LsmEngine::open(&storage).unwrap();
        load(&mut db, 8);
        db.delete_range(b("log:0002"), b("log:0005")).unwrap();
        storage.apply_all(db.take_ops());
    }
    let db = LsmEngine::open(&storage).unwrap();
    assert!(db.get(b"log:0002").unwrap().is_none());
    assert!(db.get(b"log:0004").unwrap().is_none());
    assert!(db.get(b"log:0005").unwrap().is_some());
}

#[test]
fn scan_after_delete_range_skips_deleted_keys() {
    let mut db = open();
    load(&mut db, 10);

    db.delete_range(b("log:0004"), b("log:0008")).unwrap();

    let results = db.scan(b"log:", b"log:~").unwrap();
    let keys: Vec<String> =
        results.iter().map(|(k, _)| String::from_utf8(k.clone()).unwrap()).collect();
    let expected: Vec<String> =
        [0u32, 1, 2, 3, 8, 9].iter().map(|i| format!("log:{i:04}")).collect();
    assert_eq!(keys, expected);
}

#[test]
fn delete_range_cf_scoped_to_target_family() {
    let cfs = vec!["default".to_string(), "logs".to_string()];
    let mut db = LsmEngine::open_with_cfs(&Storage::new(), &cfs).unwrap();

    for i in 0..5u32 {
        db.put_cf("default", b(&format!("k:{i}")), b("default")).unwrap();
        db.put_cf("logs", b(&format!("k:{i}")), b("logs")).unwrap();
    }

    db.delete_range_cf("logs", b("k:1"), b("k:4")).unwrap();

    assert!(db.get_cf("default", b"k:1").unwrap().is_some());
    assert!(db.get_cf("default", b"k:3").unwrap().is_some());

    assert!(db.get_cf("logs", b"k:1").unwrap().is_none());
    assert!(db.get_cf("logs", b"k:4").unwrap().is_some());
}

// ---- further cases -------------------------------------------------------------

#[test]
fn keys_written_after_a_range_was_deleted_are_there() {
    let mut db = open();
    load(&mut db, 5);
    db.delete_range(b("log:"), b("log:~")).unwrap();
    assert!(db.scan(b"", b"~").unwrap().is_empty());
    db.put(b("log:0002"), b("again")).unwrap();
    assert_eq!(db.get(b"log:0002").unwrap().as_deref(), Some(b"again".as_ref()));
}

#[test]
fn bounds_the_wrong_way_round_delete_nothing() {
    let mut db = open();
    load(&mut db, 5);
    db.delete_range(b("log:0004"), b("log:0001")).unwrap();
    assert_eq!(db.scan_prefix(b"log:").unwrap().len(), 5);
}
