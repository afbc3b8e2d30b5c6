// Transactions.

use lsmdb::error::EngineError;
use lsmdb::occ::{ConflictError, OccError, OccTransaction};
use lsmdb::storage::Storage;
use lsmdb::LsmEngine;

fn open() -> LsmEngine {
    LsmEngine::open(&Storage::new()).unwrap()
}

fn b(s: &str) -> Vec<u8> {
    s.as_bytes().to_vec()
}

#[test]
fn commit_without_conflict_succeeds() {
    let mut db = open();
    db.put(b("k"), b("initial")).unwrap();

    let mut tx = OccTransaction::begin(&db).unwrap();
    let v = tx.get(b"k");
    assert_eq!(v.as_deref(), Some(b"initial".as_ref()));

    tx.put(b"k".to_vec(), b"updated".to_vec());
    tx.commit(&mut db).unwrap();

    assert_eq!(db.get(b"k").unwrap().as_deref(), Some(b"updated".as_ref()));
}

#[test]
fn commit_detects_concurrent_write_conflict() {
    let mut db = open();
    db.put(b("account"), b("100")).unwrap();

    let mut tx = OccTransaction::begin(&db).unwrap();
    let _ = tx.get(b"account");

    db.put(b("account"), b("200")).unwrap();

    tx.put(b"account".to_vec(), b"150".to_vec());
    let result = tx.commit(&mut db);

    assert!(
        matches!(result, Err(OccError::Conflict(_))),
        "expected conflict, got {:?}",
        result
    );
}

#[test]
fn write_without_read_does_not_conflict() {
    let mut db = open();
    db.put(b("k"), b("v0")).unwrap();

    let tx = OccTransaction::begin(&db).unwrap();

    db.put(b("k"), b("v2")).unwrap();

    tx.commit(&mut db).unwrap();
}

#[test]
fn read_your_own_writes_in_transaction() {
    let db = open();
    let mut tx = OccTransaction::begin(&db).unwrap();

    tx.put(b"k".to_vec(), b"local_write".to_vec());
    let v = tx.get(b"k");

    assert_eq!(v.as_deref(), Some(b"local_write".as_ref()));
}

#[test]
fn transaction_delete_is_visible_via_get() {
    let mut db = open();
    db.put(b("k"), b("v")).unwrap();

    let mut tx = OccTransaction::begin(&db).unwrap();
    tx.delete(b"k".to_vec());
    assert_eq!(tx.get(b"k"), None);
}

#[test]
fn conflicting_transaction_can_be_retried_successfully() {
    let mut db = open();
    db.put(b("counter"), b("0")).unwrap();

    let mut attempts = 0;
    loop {
        attempts += 1;
        let mut tx = OccTransaction::begin(&db).unwrap();
        let cur: i64 = tx
            .get(b"counter")
            .and_then(|v| String::from_utf8(v).ok())
            .and_then(|s| s.parse().ok())
            .unwrap_or(0);

        if attempts == 1 {
            db.put(b("counter"), b("99")).unwrap();
        }

        tx.put(b"counter".to_vec(), (cur + 1).to_string().into_bytes());
        match tx.commit(&mut db) {
            Ok(()) => break,
            Err(OccError::Conflict(_)) => continue,
            Err(OccError::Io(e)) => panic!("io error: {e:?}"),
        }
    }
    assert!(db.get(b"counter").unwrap().is_some());
    assert!(attempts >= 2, "should have retried at least once");
}

#[test]
fn conflict_error_reports_conflicting_keys() {
    let mut db = open();
    db.put(b("a"), b("1")).unwrap();
    db.put(b("b"), b("2")).unwrap();

    let mut tx = OccTransaction::begin(&db).unwrap();
    let _ = tx.get(b"a");
    let _ = tx.get(b"b");

    db.put(b("a"), b("modified")).unwrap();

    let err = tx.commit(&mut db).unwrap_err();
    if let OccError::Conflict(e) = err {
        assert!(!e.conflicting_keys.is_empty());
        assert!(e.conflicting_keys.contains(&b"a".to_vec()));
    } else {
        panic!("expected conflict error");
    }
}

// ---- further cases -------------------------------------------------------------

#[test]
fn the_last_own_write_is_read() {
    let db = open();
    let mut tx = OccTransaction::begin(&db).unwrap();
    tx.put(b("k"), b("one"));
    tx.put(b("k"), b("two"));
    assert_eq!(tx.get(b"k").as_deref(), Some(b"two".as_ref()));
    tx.delete(b("k"));
    assert_eq!(tx.get(b"k"), None);
}

#[test]
fn a_refused_commit_writes_nothing() {
    let mut db = open();
    db.put(b("a"), b("1")).unwrap();
    db.put(b("b"), b("2")).unwrap();
    let mut tx = OccTransaction::begin(&db).unwrap();
    tx.get(b"b");
    tx.get(b"x");
    tx.get(b"a");
    tx.put(b("c"), b("3"));
    db.delete(b("b")).unwrap();
    db.put(b("x"), b("new")).unwrap();
    let seq = db.write_seq();
    match tx.commit(&mut db) {
        Err(OccError::Conflict(e)) => {
            // in the order in which they were read
            assert_eq!(e.conflicting_keys, vec![b("b"), b("x")]);
            assert_eq!(e.message(), "OCC conflict on 2 key(s)");
        }
        other => panic!("expected conflict, got {other:?}"),
    }
    assert_eq!(db.get(b"c").unwrap(), None);
    assert_eq!(db.write_seq(), seq);
}

#[test]
fn writes_of_a_transaction_share_a_number() {
    let mut db = open();
    let mut tx = OccTransaction::begin(&db).unwrap();
    tx.put(b("a"), b("1"));
    tx.put(b("b"), b("2"));
    tx.commit(&mut db).unwrap();
    assert_eq!(db.key_write_seq("default", b"a").unwrap(), Some(1));
    assert_eq!(db.key_write_seq("default", b"b").unwrap(), Some(1));
}

#[test]
fn unknown_families_refuse_a_commit() {
    let mut db = open();
    let mut tx = OccTransaction::begin(&db).unwrap();
    assert_eq!(tx.get_cf("nope", b"k"), None);
    assert!(matches!(tx.commit(&mut db), Err(OccError::Io(EngineError::NotFound))));

    let mut tx = OccTransaction::begin(&db).unwrap();
    tx.put_cf("nope", b("k"), b("v"));
    assert_eq!(tx.get_cf("other", b"k"), None);
    let mut tx2 = OccTransaction::begin(&db).unwrap();
    tx2.put_cf("nope", b("k"), b("v"));
    tx2.delete_cf("default", b("k"));
    assert!(matches!(tx2.commit(&mut db), Err(OccError::Io(EngineError::NotFound))));
    assert_eq!(db.write_seq(), 1);
}

#[test]
fn a_transaction_needs_the_default_family() {
    let db = LsmEngine::open_with_cfs(&Storage::new(), &vec!["other".to_string()]).unwrap();
    assert!(matches!(OccTransaction::begin(&db), Err(EngineError::NotFound)));
}

#[test]
fn engine_errors_become_transaction_errors() {
    assert!(matches!(
        OccError::from(EngineError::InvalidData),
        OccError::Io(EngineError::InvalidData)
    ));
    let none = ConflictError { conflicting_keys: vec![] };
    assert_eq!(none.message(), "OCC conflict on 0 key(s)");
}

#[test]
fn what_was_read_is_still_there_at_a_commit() {
    let mut db = open();
    db.put(b("k"), b("v")).unwrap();
    let mut tx = OccTransaction::begin(&db).unwrap();
    let read = tx.get(b"k");
    db.put(b("other"), b("w")).unwrap();
    tx.put(b("sum"), b("v+w"));
    assert_eq!(db.get(b"k").unwrap(), read);
    tx.commit(&mut db).unwrap();
    assert_eq!(db.get(b"sum").unwrap().as_deref(), Some(b"v+w".as_ref()));
}

// write a key, large enough to be flushed at once
fn put_large(db: &mut LsmEngine, key: &str) {
    db.put(b(key), vec![7; 260 * 1024]).unwrap();
}

// run the compaction that is under way
fn compact(db: &mut LsmEngine) {
    let task = db.take_task().unwrap();
    let result = task.run().ok().unwrap();
    db.apply_compaction_result(result);
}

#[test]
fn a_deletion_conflicts_after_its_tombstone_was_dropped() {
    let mut db = open();
    db.put(b("kept"), b("1")).unwrap();
    db.put(b("gone"), b("1")).unwrap();
    db.put(b("back"), b("1")).unwrap();
    let mut tx = OccTransaction::begin(&db).unwrap();
    let mut other = OccTransaction::begin(&db).unwrap();
    assert_eq!(tx.get(b"gone"), Some(b("1")));
    assert_eq!(tx.get(b"back"), Some(b("1")));
    assert_eq!(tx.get(b"kept"), Some(b("1")));
    assert_eq!(other.get(b"kept"), Some(b("1")));
    db.delete(b("gone")).unwrap();
    db.delete(b("back")).unwrap();
    for key in ["x0", "x1", "x2", "x3"] {
        put_large(&mut db, key);
    }
    compact(&mut db);
    db.put(b("back"), b("2")).unwrap();
    assert_eq!(db.get(b"gone").unwrap(), None);
    tx.put(b("kept"), b("2"));
    match tx.commit(&mut db) {
        Err(OccError::Conflict(e)) => assert_eq!(e.conflicting_keys, [b("gone"), b("back")]),
        _ => panic!("the deletion was missed"),
    }
    assert_eq!(db.get(b"kept").unwrap(), Some(b("1")));
    // a compaction is no write
    other.put(b("kept"), b("3"));
    assert!(other.commit(&mut db).is_ok());
    assert_eq!(db.get(b"kept").unwrap(), Some(b("3")));
    // what was deleted before a transaction began is no conflict
    let mut late = OccTransaction::begin(&db).unwrap();
    assert_eq!(late.get(b"gone"), None);
    late.put(b("gone"), b("4"));
    assert!(late.commit(&mut db).is_ok());
}
