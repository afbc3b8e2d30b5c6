// Write buffers, the block cache, cursors and the files in memory.

use lsmdb::block_cache::BlockCache;
use lsmdb::error::EngineError;
use lsmdb::iter::{Cursor, SstableBlockIter};
use lsmdb::sstable::SSTable;
use lsmdb::storage::{FileName, FileOp, Storage};
use lsmdb::{mem_table, memtable, LsmEngine};
use std::sync::Arc;

fn b(s: &str) -> Vec<u8> {
    s.as_bytes().to_vec()
}

// ---- write buffers ---------------------------------------------------------------

#[test]
fn a_plain_buffer_is_sorted_and_counts_bytes() {
    let mut m = mem_table::MemTable::new();
    assert!(m.is_empty());
    m.put(b("b"), b("22"));
    m.put(b("a"), b("1"));
    m.put(b("b"), b("3"));
    m.delete(b("c"));
    assert!(!m.is_empty());
    assert_eq!(m.size_bytes, 3 + 2 + 2 + 1);
    assert_eq!(m.get(b"b"), Some(&Some(b("3"))));
    assert_eq!(m.get(b"c"), Some(&None));
    assert_eq!(m.get(b"d"), None);
    let keys: Vec<&Vec<u8>> = m.iter().into_iter().map(|e| e.0).collect();
    assert_eq!(keys, [b"a", b"b", b"c"]);
}

#[test]
fn a_buffer_keeps_the_last_write_and_its_number() {
    let mut m = memtable::MemTable::default();
    m.put_seq(b("k"), b("old"), 3);
    m.put_ttl_seq(b("k"), b("new"), 5, 100);
    m.delete_seq(b("gone"), 6);
    let e = m.entry(b"k").unwrap();
    assert_eq!((e.seq, e.expires_at), (5, 100));
    assert!(e.is_visible(99));
    assert!(!e.is_visible(100));
    assert_eq!(m.get_at(b"k", 5), Some(&Some(b("new"))));
    // what came before is gone
    assert_eq!(m.get_at(b"k", 4), None);
    assert_eq!(m.get(b"gone"), Some(&None));
    assert_eq!(m.get(b"never"), None);
    assert_eq!(m.len(), 2);
}

#[test]
fn every_snapshot_sees_what_has_no_number() {
    let mut m = memtable::MemTable::new();
    m.put(b("k"), b("v"));
    m.delete(b("gone"));
    for max_seq in [0, 5, u64::MAX] {
        assert_eq!(m.get_at(b"k", max_seq), Some(&Some(b("v"))));
        assert_eq!(m.get_at(b"gone", max_seq), Some(&None));
    }
    m.put_seq(b("k"), b("w"), 6);
    assert_eq!(m.get_at(b"k", 5), None);
    assert_eq!(m.get_at(b"k", 6), Some(&Some(b("w"))));
}

// ---- block cache -----------------------------------------------------------------

fn block(n: u8) -> Arc<Vec<u8>> {
    Arc::new(vec![n])
}

#[test]
fn the_least_recently_used_block_makes_room() {
    let mut c = BlockCache::new(2);
    c.insert(("f".to_string(), 0), block(0));
    c.insert(("f".to_string(), 1), block(1));
    assert_eq!(c.get(&("f".to_string(), 0)), Some(block(0)));
    c.insert(("g".to_string(), 0), block(2));
    assert_eq!(c.get(&("f".to_string(), 1)), None);
    assert_eq!(c.get(&("f".to_string(), 0)), Some(block(0)));
    assert_eq!(c.get(&("g".to_string(), 0)), Some(block(2)));
    // a block that is there is replaced, and nothing leaves
    c.insert(("f".to_string(), 0), block(9));
    assert_eq!(c.get(&("f".to_string(), 0)), Some(block(9)));
    assert_eq!(c.get(&("g".to_string(), 0)), Some(block(2)));
}

#[test]
fn a_table_is_searched_through_the_cache() {
    let mut m = memtable::MemTable::new();
    for i in 0u64..200 {
        m.put_seq(format!("k{i:03}").into_bytes(), vec![i as u8; 100], i);
    }
    m.delete_seq(b("k050"), 500);
    let t = SSTable::write_from_memtable("t.sst".to_string(), &m, 0);
    let path = "default/t.sst".to_string();
    let mut cache = BlockCache::new(2);
    for _ in 0..2 {
        for i in 0u64..200 {
            let key = format!("k{i:03}");
            assert_eq!(t.get_cached(&path, key.as_bytes(), &mut cache), t.get(key.as_bytes()));
            let absent = format!("k{i:03}x");
            assert_eq!(t.get_cached(&path, absent.as_bytes(), &mut cache), Ok(None));
        }
    }
    assert_eq!(t.get_cached(&path, b"k050", &mut cache), Ok(Some(None)));
    assert_eq!(t.get_cached(&path, b"a", &mut cache), Ok(None));
    // what was looked up last is cached, under the place of its block
    let j = t.block_of(b"k050").unwrap();
    let cached = cache.get(&(path, t.block_offset(j))).unwrap();
    assert_eq!(*cached, t.block_data(j).unwrap());
}

#[test]
fn a_damaged_block_is_not_cached() {
    let mut m = memtable::MemTable::new();
    for i in 0u64..200 {
        m.put_seq(format!("k{i:03}").into_bytes(), vec![i as u8; 100], i);
    }
    let mut data = SSTable::write_from_memtable("t.sst".to_string(), &m, 0).file_data().clone();
    data[100] ^= 1;
    let t = SSTable::open("t.sst".to_string(), data, 0).unwrap();
    let path = "default/t.sst".to_string();
    let mut cache = BlockCache::new(2);
    assert_eq!(t.get_cached(&path, b"k000", &mut cache), Err(EngineError::InvalidData));
    assert_eq!(cache.get(&(path.clone(), 0)), None);
    assert_eq!(t.get_cached(&path, b"k199", &mut cache), Ok(Some(Some(vec![199; 100]))));
}

#[test]
fn the_engine_reads_through_a_cache() {
    let mut db = LsmEngine::open(&Storage::new()).unwrap();
    let mut cache = BlockCache::new(3);
    for round in 0u8..6 {
        for i in 0u32..40 {
            db.put(b(&format!("k{i:02}")), vec![round; 10_000]).unwrap();
        }
        db.delete(b(&format!("k{round:02}"))).unwrap();
        while let Some(task) = db.take_task() {
            db.apply_compaction_result(task.run().ok().unwrap());
        }
        for i in 0u32..41 {
            let key = format!("k{i:02}");
            let cached = db.get_cf_cached("default", key.as_bytes(), &mut cache).unwrap();
            assert_eq!(cached, db.get(key.as_bytes()).unwrap());
        }
    }
    assert!(db.stats().total_ss_table_files > 0);
    let missing = db.get_cf_cached("nope", b"k", &mut cache);
    assert!(matches!(missing, Err(EngineError::NotFound)));
    db.put_until_cf("default", b("t"), b("v"), 9).unwrap();
    assert_eq!(db.get_cf_cached_at("default", b"t", 8, &mut cache).unwrap(), Some(b("v")));
    assert_eq!(db.get_cf_cached_at("default", b"t", 9, &mut cache).unwrap(), None);
}

// ---- cursors ---------------------------------------------------------------------

#[test]
fn earlier_sources_of_a_cursor_win() {
    let newer = vec![(b("a"), 4, Some(b("new"))), (b("b"), 5, None)];
    let older =
        vec![(b("a"), 1, Some(b("old"))), (b("b"), 2, Some(b("x"))), (b("c"), 3, Some(b("y")))];
    let mut c = Cursor::new(vec![newer, older, vec![]]);
    assert_eq!(c.next(), Some((b("a"), b("new"))));
    assert_eq!(c.next(), Some((b("c"), b("y"))));
    assert_eq!(c.next(), None);
    assert_eq!(c.next(), None);
}

#[test]
fn a_table_is_read_block_by_block() {
    let mut m = memtable::MemTable::new();
    for i in 0u64..200 {
        m.put_seq(format!("k{i:03}").into_bytes(), vec![7; 100], i);
    }
    let t = SSTable::write_from_memtable("t.sst".to_string(), &m, 0);
    let mut it = SstableBlockIter::new(&t, 149);
    let mut seen = 0u64;
    while let Some((key, e)) = it.next() {
        assert_eq!(key, format!("k{seen:03}").into_bytes());
        assert_eq!(e.seq, seen);
        seen += 1;
    }
    // later writes are passed over
    assert_eq!(seen, 150);
}

// ---- files -----------------------------------------------------------------------

#[test]
fn paths_of_files() {
    assert_eq!(FileName::Manifest.path(), "MANIFEST");
    assert_eq!(FileName::Wal { cf: "default".to_string() }.path(), "default/wal.log");
    let t = FileName::Table { cf: "meta".to_string(), name: "L0_00000001.sst".to_string() };
    assert_eq!(t.path(), "meta/L0_00000001.sst");
    assert!(t.same(&t.copy()));
    assert!(!t.same(&FileName::Manifest));
}

#[test]
fn operations_change_the_files() {
    let log = || FileName::Wal { cf: "a".to_string() };
    let mut s = Storage::new();
    assert!(s.read(&log()).is_none());
    s.apply(FileOp::CreateDir { cf: "a".to_string() });
    assert!(s.read(&log()).is_none());
    s.apply(FileOp::Append { file: log(), data: b("one") });
    s.apply(FileOp::Append { file: log(), data: b("two") });
    assert_eq!(s.read(&log()), Some(&b("onetwo")));
    s.apply(FileOp::Write { file: log(), data: b("x") });
    assert_eq!(s.read_or_empty(&log()), b("x"));
    s.apply(FileOp::AppendAll {
        parts: vec![(log(), b("y")), (FileName::Manifest, b("m")), (log(), b("z"))],
    });
    assert_eq!(s.read(&log()), Some(&b("xyz")));
    assert_eq!(s.read(&FileName::Manifest), Some(&b("m")));
    s.apply(FileOp::Remove { file: log() });
    assert!(s.read(&log()).is_none());
    assert!(s.read_or_empty(&log()).is_empty());
}
