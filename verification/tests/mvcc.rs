// Snapshots and batches.

use lsmdb::error::EngineError;
use lsmdb::storage::Storage;
use lsmdb::{LsmEngine, WriteBatch};

fn open() -> LsmEngine {
    LsmEngine::open(&Storage::new()).unwrap()
}

fn b(s: &str) -> Vec<u8> {
    s.as_bytes().to_vec()
}

// ---- snapshot isolation --------------------------------------------------------

#[test]
fn snapshot_is_isolated_from_later_writes() {
    let mut db = open();
    db.put(b("k"), b("v1")).unwrap();

    let snap = db.snapshot().unwrap();
    db.put(b("k"), b("v2")).unwrap();

    assert_eq!(snap.get(b"k"), Some(b"v1".as_ref()));
    assert_eq!(db.get(b"k").unwrap().as_deref(), Some(b"v2".as_ref()));
}

#[test]
fn snapshot_does_not_see_post_snapshot_deletes() {
    let mut db = open();
    db.put(b("k"), b("alive")).unwrap();
    let snap = db.snapshot().unwrap();
    db.delete(b("k")).unwrap();

    assert_eq!(snap.get(b"k"), Some(b"alive".as_ref()));
    assert_eq!(db.get(b"k").unwrap(), None);
}

#[test]
fn snapshot_get_returns_none_for_pre_existing_absent_key() {
    let mut db = open();
    let snap = db.snapshot().unwrap();
    db.put(b("added_after"), b("value")).unwrap();

    assert_eq!(snap.get(b"added_after"), None);
}

#[test]
fn snapshot_scan_prefix_is_consistent() {
    let mut db = open();
    db.put(b("sensor:001"), b("10")).unwrap();
    db.put(b("sensor:002"), b("20")).unwrap();
    let snap = db.snapshot().unwrap();
    db.put(b("sensor:003"), b("30")).unwrap();

    let results = snap.scan_prefix(b"sensor:");
    assert_eq!(results.len(), 2);
}

#[test]
fn snapshot_key_count_reflects_live_keys_at_creation() {
    let mut db = open();
    db.put(b("a"), b("1")).unwrap();
    db.put(b("b"), b("2")).unwrap();
    db.put(b("c"), b("3")).unwrap();
    let snap = db.snapshot().unwrap();
    db.delete(b("c")).unwrap();

    assert_eq!(snap.key_count(), 3);
}

#[test]
fn snapshot_iter_returns_sorted_pairs() {
    let mut db = open();
    for ch in ["zebra", "apple", "mango"] {
        db.put(b(ch), b(ch)).unwrap();
    }
    let snap = db.snapshot().unwrap();
    let pairs = snap.iter();
    let keys: Vec<&Vec<u8>> = pairs.iter().map(|(k, _)| *k).collect();
    let key_strs: Vec<&str> = keys.iter().map(|k| std::str::from_utf8(k).unwrap()).collect();
    assert_eq!(key_strs, ["apple", "mango", "zebra"]);
}

// ---- batches -------------------------------------------------------------------

#[test]
fn write_batch_all_or_nothing_visibility() {
    let mut db = open();
    db.put(b("a"), b("before")).unwrap();
    db.put(b("b"), b("before")).unwrap();

    let snap_pre = db.snapshot().unwrap();

    let mut batch = WriteBatch::new();
    batch.put("default", b("a"), b("after")).put("default", b("b"), b("after"));
    db.write_batch(batch).unwrap();

    let snap_post = db.snapshot().unwrap();

    assert_eq!(snap_pre.get(b"a"), Some(b"before".as_ref()));
    assert_eq!(snap_pre.get(b"b"), Some(b"before".as_ref()));
    assert_eq!(snap_post.get(b"a"), Some(b"after".as_ref()));
    assert_eq!(snap_post.get(b"b"), Some(b"after".as_ref()));
}

#[test]
fn write_batch_delete_is_visible_after_commit() {
    let mut db = open();
    db.put(b("del_me"), b("value")).unwrap();

    let mut batch = WriteBatch::new();
    batch.delete("default", b("del_me"));
    db.write_batch(batch).unwrap();

    assert_eq!(db.get(b"del_me").unwrap(), None);
}

#[test]
fn empty_write_batch_is_no_op() {
    let mut db = open();
    db.put(b("k"), b("v")).unwrap();
    db.write_batch(WriteBatch::new()).unwrap();
    assert_eq!(db.get(b"k").unwrap().as_deref(), Some(b"v".as_ref()));
}

// ---- further cases -------------------------------------------------------------

#[test]
fn a_batch_has_one_number() {
    let mut db = open();
    db.put(b("a"), b("1")).unwrap();
    let mut batch = WriteBatch::default();
    assert!(batch.is_empty());
    batch.put("default", b("a"), b("2")).put("default", b("b"), b("2")).delete("default", b("c"));
    assert_eq!(batch.len(), 3);
    db.write_batch(batch).unwrap();
    assert_eq!(db.write_seq(), 3);
    for key in [b"a", b"b", b"c"] {
        assert_eq!(db.key_write_seq("default", key).unwrap(), Some(2));
    }
    // an empty batch takes none
    db.write_batch(WriteBatch::new()).unwrap();
    assert_eq!(db.write_seq(), 3);
}

#[test]
fn the_last_write_of_a_batch_to_a_key_counts() {
    let mut db = open();
    let mut batch = WriteBatch::new();
    batch
        .put("default", b("k"), b("first"))
        .delete("default", b("k"))
        .put("default", b("k"), b("last"))
        .put("default", b("gone"), b("x"))
        .delete("default", b("gone"));
    db.write_batch(batch).unwrap();
    assert_eq!(db.get(b"k").unwrap().as_deref(), Some(b"last".as_ref()));
    assert_eq!(db.get(b"gone").unwrap(), None);
}

#[test]
fn a_batch_for_an_unknown_family_writes_nothing() {
    let mut db = open();
    let mut batch = WriteBatch::new();
    batch.put("default", b("k"), b("v")).put("nope", b("k"), b("v"));
    assert_eq!(db.write_batch(batch), Err(EngineError::NotFound));
    assert_eq!(db.get(b"k").unwrap(), None);
    assert_eq!(db.write_seq(), 1);
}

#[test]
fn a_snapshot_is_pinned_below_the_next_number() {
    let mut db = open();
    assert_eq!(db.snapshot().unwrap().seq(), 0);
    db.put(b("k"), b("v")).unwrap();
    db.put(b("k"), b("w")).unwrap();
    assert_eq!(db.snapshot().unwrap().seq(), 2);
}

#[test]
fn a_snapshot_is_seen_by_the_clock_that_is_given() {
    let mut db = open();
    db.put_until_cf("default", b("k"), b("v"), 1_000).unwrap();
    assert_eq!(db.snapshot_cf_at("default", 999).unwrap().key_count(), 1);
    assert_eq!(db.snapshot_cf_at("default", 1_000).unwrap().key_count(), 0);
}
