// Column families.

use lsmdb::error::EngineError;
use lsmdb::storage::Storage;
use lsmdb::LsmEngine;

fn names(cfs: &[&str]) -> Vec<String> {
    cfs.iter().map(|s| s.to_string()).collect()
}

fn open_cfs(cfs: &[&str]) -> LsmEngine {
    LsmEngine::open_with_cfs(&Storage::new(), &names(cfs)).unwrap()
}

#[test]
fn separate_cfs_do_not_share_keys() {
    let mut db = open_cfs(&["default", "meta"]);
    db.put_cf("default", b"key".to_vec(), b"from_default".to_vec()).unwrap();
    db.put_cf("meta", b"key".to_vec(), b"from_meta".to_vec()).unwrap();

    assert_eq!(
        db.get_cf("default", b"key").unwrap().as_deref(),
        Some(b"from_default".as_ref())
    );
    assert_eq!(db.get_cf("meta", b"key").unwrap().as_deref(), Some(b"from_meta".as_ref()));
}

#[test]
fn delete_in_one_cf_does_not_affect_another() {
    let mut db = open_cfs(&["default", "shadow"]);
    db.put_cf("default", b"k".to_vec(), b"v".to_vec()).unwrap();
    db.put_cf("shadow", b"k".to_vec(), b"v".to_vec()).unwrap();
    db.delete_cf("shadow", b"k".to_vec()).unwrap();

    assert_eq!(db.get_cf("default", b"k").unwrap().as_deref(), Some(b"v".as_ref()));
    assert_eq!(db.get_cf("shadow", b"k").unwrap(), None);
}

#[test]
fn list_cfs_returns_all_families() {
    let db = open_cfs(&["default", "logs", "meta"]);
    let mut cfs = db.list_cfs();
    cfs.sort();
    assert_eq!(cfs, ["default", "logs", "meta"]);
}

#[test]
fn scan_prefix_scoped_to_cf() {
    let mut db = open_cfs(&["default", "idx"]);
    db.put_cf("default", b"user:1".to_vec(), b"a".to_vec()).unwrap();
    db.put_cf("idx", b"user:1".to_vec(), b"b".to_vec()).unwrap();
    db.put_cf("idx", b"user:2".to_vec(), b"c".to_vec()).unwrap();

    let idx_users = db.scan_prefix_cf("idx", b"user:").unwrap();
    assert_eq!(idx_users.len(), 2);

    let default_users = db.scan_prefix_cf("default", b"user:").unwrap();
    assert_eq!(default_users.len(), 1);
}

#[test]
fn cfs_persist_across_reopen() {
    let mut storage = Storage::new();
    {
        let mut db =
            LsmEngine::open_with_cfs(&storage, &names(&["default", "archive"])).unwrap();
        db.put_cf("archive", b"rec:1".to_vec(), b"data".to_vec()).unwrap();
        storage.apply_all(db.take_ops());
    }
    let db = LsmEngine::open_with_cfs(&storage, &names(&["default", "archive"])).unwrap();
    assert_eq!(db.get_cf("archive", b"rec:1").unwrap().as_deref(), Some(b"data".as_ref()));
}

// ---- further cases -------------------------------------------------------------

#[test]
fn names_are_listed_in_byte_order() {
    let db = open_cfs(&["zeta", "Alpha", "beta", "default", "\u{e9}t\u{e9}"]);
    assert_eq!(db.list_cfs(), ["Alpha", "beta", "default", "zeta", "\u{e9}t\u{e9}"]);
}

#[test]
fn unknown_family_is_not_found() {
    let mut db = open_cfs(&["default"]);
    assert_eq!(db.put_cf("nope", b"k".to_vec(), b"v".to_vec()), Err(EngineError::NotFound));
    assert_eq!(db.delete_cf("nope", b"k".to_vec()), Err(EngineError::NotFound));
    assert_eq!(
        db.delete_range_cf("nope", b"a".to_vec(), b"b".to_vec()),
        Err(EngineError::NotFound)
    );
    assert_eq!(
        db.put_with_ttl_cf("nope", b"k".to_vec(), b"v".to_vec(), 5),
        Err(EngineError::NotFound)
    );
    assert_eq!(db.get_cf("nope", b"k"), Err(EngineError::NotFound));
    assert_eq!(db.scan_cf("nope", b"a", b"b"), Err(EngineError::NotFound));
    assert_eq!(db.scan_prefix_cf("nope", b"a"), Err(EngineError::NotFound));
    assert_eq!(db.key_write_seq("nope", b"k"), Err(EngineError::NotFound));
    assert!(matches!(db.snapshot_cf("nope"), Err(EngineError::NotFound)));
    assert!(matches!(db.iter_cf("nope"), Err(EngineError::NotFound)));
    assert!(db.stats_cf("nope").is_none());
    // nothing was queued, and no number was used
    assert_eq!(db.write_seq(), 1);
}

#[test]
fn created_family_is_empty_and_persists() {
    let mut storage = Storage::new();
    let mut db = LsmEngine::open(&storage).unwrap();
    db.create_cf("audit").unwrap();
    assert!(db.scan_cf("audit", b"", b"\xff").unwrap().is_empty());
    db.put_cf("audit", b"log:001".to_vec(), b"changed".to_vec()).unwrap();
    // creating it again changes nothing
    db.create_cf("audit").unwrap();
    assert_eq!(db.get_cf("audit", b"log:001").unwrap().as_deref(), Some(b"changed".as_ref()));
    storage.apply_all(db.take_ops());

    // families of the manifest are loaded though they are not asked for
    let again = LsmEngine::open(&storage).unwrap();
    assert_eq!(again.list_cfs(), ["audit", "default"]);
    assert_eq!(
        again.get_cf("audit", b"log:001").unwrap().as_deref(),
        Some(b"changed".as_ref())
    );
}

#[test]
fn without_a_default_family_its_stats_are_zero() {
    let db = open_cfs(&["only"]);
    let s = db.stats();
    assert_eq!(s.mem_table_size_bytes, 0);
    assert_eq!(s.immutable_count, 0);
    assert_eq!(s.level_file_counts, vec![0; 7]);
    assert_eq!(s.total_ss_table_files, 0);
    assert_eq!(s.column_families, ["only"]);
    assert_eq!(db.get(b"k"), Err(EngineError::NotFound));
}
