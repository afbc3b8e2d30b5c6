// The engine: put, get, delete, scan, overwrite, persistence.

use lsmdb::error::EngineError;
use lsmdb::manifest::{Manifest, ManifestRecord};
use lsmdb::memtable::MemTable;
use lsmdb::sstable::SSTable;
use lsmdb::storage::{FileName, Storage};
use lsmdb::LsmEngine;

fn open() -> LsmEngine {
    LsmEngine::open(&Storage::new()).unwrap()
}

fn b(s: &str) -> Vec<u8> {
    s.as_bytes().to_vec()
}

#[test]
fn put_and_get() {
    let mut db = open();
    db.put(b("hello"), b("world")).unwrap();
    assert_eq!(db.get(b"hello").unwrap().as_deref(), Some(b"world".as_ref()));
}

#[test]
fn get_missing_returns_none() {
    let db = open();
    assert_eq!(db.get(b"missing").unwrap(), None);
}

#[test]
fn overwrite_returns_latest() {
    let mut db = open();
    db.put(b("k"), b("v1")).unwrap();
    db.put(b("k"), b("v2")).unwrap();
    assert_eq!(db.get(b"k").unwrap().as_deref(), Some(b"v2".as_ref()));
}

#[test]
fn delete_makes_key_invisible() {
    let mut db = open();
    db.put(b("k"), b("v")).unwrap();
    db.delete(b("k")).unwrap();
    assert_eq!(db.get(b"k").unwrap(), None);
}

#[test]
fn scan_returns_sorted_range() {
    let mut db = open();
    for i in 0u8..10 {
        db.put(b(&format!("key:{i:02}")), b(&format!("val:{i}"))).unwrap();
    }
    let results = db.scan(b"key:03", b"key:07").unwrap();
    let keys: Vec<String> =
        results.iter().map(|(k, _)| String::from_utf8(k.clone()).unwrap()).collect();
    assert_eq!(keys, ["key:03", "key:04", "key:05", "key:06"]);
}

#[test]
fn scan_prefix_filters_correctly() {
    let mut db = open();
    db.put(b("user:alice"), b("1")).unwrap();
    db.put(b("user:bob"), b("2")).unwrap();
    db.put(b("order:001"), b("3")).unwrap();

    let users = db.scan_prefix(b"user:").unwrap();
    assert_eq!(users.len(), 2);
    assert!(users.iter().all(|(k, _)| k.starts_with(b"user:")));
}

#[test]
fn persistence_survives_reopen() {
    let mut storage = Storage::new();
    {
        let mut db = LsmEngine::open(&storage).unwrap();
        db.put(b("persist"), b("yes")).unwrap();
        storage.apply_all(db.take_ops());
    }
    let db = LsmEngine::open(&storage).unwrap();
    assert_eq!(db.get(b"persist").unwrap().as_deref(), Some(b"yes".as_ref()));
}

#[test]
fn delete_persists_across_reopen() {
    let mut storage = Storage::new();
    {
        let mut db = LsmEngine::open(&storage).unwrap();
        db.put(b("gone"), b("soon")).unwrap();
        db.delete(b("gone")).unwrap();
        storage.apply_all(db.take_ops());
    }
    let db = LsmEngine::open(&storage).unwrap();
    assert_eq!(db.get(b"gone").unwrap(), None);
}

#[test]
fn high_volume_write_and_read() {
    let mut db = open();
    for i in 0u32..500 {
        db.put(b(&format!("k:{i:06}")), b(&format!("v{i}"))).unwrap();
    }
    for i in 0u32..500 {
        assert!(
            db.get(format!("k:{i:06}").as_bytes()).unwrap().is_some(),
            "missing key {i}"
        );
    }
}

#[test]
fn empty_scan_returns_empty() {
    let db = open();
    assert!(db.scan(b"a", b"z").unwrap().is_empty());
}

#[test]
fn iter_deduplicates_and_suppresses_tombstones() {
    let mut db = open();
    db.put(b("a"), b("1")).unwrap();
    db.put(b("b"), b("2")).unwrap();
    db.put(b("a"), b("3")).unwrap();
    db.delete(b("b")).unwrap();

    let live: Vec<_> = db.iter().unwrap().collect();
    assert_eq!(live.len(), 1);
    assert_eq!(live[0].0, b"a");
    assert_eq!(live[0].1, b"3");
}

// ---- further cases -------------------------------------------------------------

#[test]
fn sequence_numbers_grow_by_one_and_are_restored() {
    let mut storage = Storage::new();
    let mut db = LsmEngine::open(&storage).unwrap();
    assert_eq!(db.write_seq(), 1);
    db.put(b("a"), b("1")).unwrap();
    db.delete(b("a")).unwrap();
    db.put(b("b"), b("2")).unwrap();
    assert_eq!(db.write_seq(), 4);
    assert_eq!(db.key_write_seq("default", b"a").unwrap(), Some(2));
    assert_eq!(db.key_write_seq("default", b"b").unwrap(), Some(3));
    assert_eq!(db.key_write_seq("default", b"c").unwrap(), None);
    storage.apply_all(db.take_ops());
    assert_eq!(LsmEngine::open(&storage).unwrap().write_seq(), 4);
}

#[test]
fn stats_count_the_bytes_in_memory() {
    let mut db = open();
    db.put(b("key"), b("value")).unwrap();
    let s = db.stats();
    // the key, the value and the sequence number
    assert_eq!(s.mem_table_size_bytes, 3 + 5 + 8);
    assert_eq!(s.immutable_count, 0);
    assert_eq!(s.level_file_counts, vec![0; 7]);
    assert_eq!(s.total_ss_table_files, 0);
    assert_eq!(s.column_families, ["default"]);
}

#[test]
fn operations_are_handed_out_once() {
    let mut db = open();
    db.put(b("a"), b("1")).unwrap();
    // the directory, the log and the edit of the new family, and the record
    assert_eq!(db.take_ops().len(), 4);
    assert!(db.take_ops().is_empty());
    db.put(b("a"), b("2")).unwrap();
    assert_eq!(db.take_ops().len(), 1);
}

#[test]
fn there_is_room_for_a_write() {
    assert!(open().check_room());
}

fn add(m: &mut Manifest, cf: &str, level: u32, filename: &str) {
    let (cf, filename) = (cf.to_string(), filename.to_string());
    m.append(&ManifestRecord::AddFile { cf, level, filename });
}

fn write_table(storage: &mut Storage, cf: &str, name: &str, entries: &[(&str, &str, u64)]) {
    let mut mem = MemTable::new();
    for (k, v, seq) in entries {
        mem.put_seq(b(k), b(v), *seq);
    }
    let t = SSTable::write_from_memtable(name.to_string(), &mem, 0);
    let file = FileName::Table { cf: cf.to_string(), name: name.to_string() };
    storage.write(file, t.file_data().clone());
}

#[test]
fn a_manifest_that_lists_files_twice_is_opened() {
    let mut storage = Storage::new();
    write_table(&mut storage, "default", "L0_00000001.sst", &[("a", "one", 1), ("b", "one", 2)]);
    write_table(&mut storage, "default", "L0_00000002.sst", &[("a", "two", 3), ("c", "two", 4)]);
    write_table(&mut storage, "default", "L1_00000003.sst", &[("b", "old", 5), ("d", "old", 6)]);
    let mut m = Manifest::open(vec![]);
    m.append(&ManifestRecord::CreateCF { name: "default".to_string() });
    // at the top of its level again, at a lower level too, and at a deeper one first
    add(&mut m, "default", 0, "L0_00000001.sst");
    add(&mut m, "default", 0, "L0_00000002.sst");
    add(&mut m, "default", 0, "L0_00000001.sst");
    add(&mut m, "default", 3, "L0_00000002.sst");
    add(&mut m, "default", 5, "L1_00000003.sst");
    add(&mut m, "default", 1, "L1_00000003.sst");
    storage.write(FileName::Manifest, m.bytes().clone());
    let mut db = LsmEngine::open(&storage).unwrap();
    let pairs = [("a", "one"), ("b", "one"), ("c", "two"), ("d", "old")];
    let expected: Vec<(Vec<u8>, Vec<u8>)> = pairs.iter().map(|(k, v)| (b(k), b(v))).collect();
    assert_eq!(db.scan(b"", b"z").unwrap(), expected);
    assert_eq!(db.write_seq(), 7);
    // from now on each is listed once
    assert_eq!(db.stats().level_file_counts, vec![2, 1, 0, 0, 0, 0, 0]);
    storage.apply_all(db.take_ops());
    let state = Manifest::recover(&storage.read(&FileName::Manifest).unwrap());
    let listed = [(0, "L0_00000002.sst"), (0, "L0_00000001.sst"), (1, "L1_00000003.sst")];
    let listed: Vec<(u32, String)> = listed.iter().map(|(l, n)| (*l, n.to_string())).collect();
    assert_eq!(state.files_in(&"default".to_string()), listed);
    assert_eq!(LsmEngine::open(&storage).unwrap().scan(b"", b"z").unwrap(), expected);
}

#[test]
fn files_of_a_family_that_was_never_created_are_ignored() {
    let mut storage = Storage::new();
    write_table(&mut storage, "ghost", "L0_00000009.sst", &[("a", "1", 1)]);
    let mut m = Manifest::open(vec![]);
    m.append(&ManifestRecord::CreateCF { name: "default".to_string() });
    add(&mut m, "ghost", 0, "L0_00000009.sst");
    storage.write(FileName::Manifest, m.bytes().clone());
    let mut db = LsmEngine::open(&storage).unwrap();
    assert_eq!(db.list_cfs(), ["default"]);
    assert_eq!(db.write_seq(), 1);
    db.create_cf("ghost").unwrap();
    assert_eq!(db.get_cf("ghost", b"a").unwrap(), None);
    storage.apply_all(db.take_ops());
    let again = LsmEngine::open(&storage).unwrap();
    assert_eq!(again.get_cf("ghost", b"a").unwrap(), None);
}

#[test]
fn a_database_without_a_number_left_is_refused() {
    let mut storage = Storage::new();
    write_table(&mut storage, "default", "L0_00000001.sst", &[("a", "1", u64::MAX)]);
    let mut m = Manifest::open(vec![]);
    m.append(&ManifestRecord::CreateCF { name: "default".to_string() });
    add(&mut m, "default", 0, "L0_00000001.sst");
    storage.write(FileName::Manifest, m.bytes().clone());
    assert!(matches!(LsmEngine::open(&storage), Err(EngineError::InvalidData)));
}

#[test]
fn a_listed_table_that_cannot_be_read_is_skipped() {
    let mut m = Manifest::open(vec![]);
    m.append(&ManifestRecord::CreateCF { name: "default".to_string() });
    m.append(&ManifestRecord::AddFile {
        cf: "default".to_string(),
        level: 0,
        filename: "L0_00000041.sst".to_string(),
    });
    let mut storage = Storage::new();
    storage.write(FileName::Manifest, m.bytes().clone());
    let mut db = LsmEngine::open(&storage).unwrap();
    assert_eq!(db.stats().total_ss_table_files, 0);
    // its number is not used again
    db.put(b("k"), vec![7; 300 * 1024]).unwrap();
    assert_eq!(db.stats().level_file_counts[0], 1);
    storage.apply_all(db.take_ops());
    let file = FileName::Table { cf: "default".to_string(), name: "L0_00000042.sst".to_string() };
    assert!(storage.read(&file).is_some());
}
