// Flushing, compaction and crashes.

use lsmdb::engine::CompactionTask;
use lsmdb::error::EngineError;
use lsmdb::occ::OccTransaction;
use lsmdb::storage::{FileName, FileOp, Storage};
use lsmdb::{LsmEngine, WriteBatch};

fn b(s: &str) -> Vec<u8> {
    s.as_bytes().to_vec()
}

fn run(db: &mut LsmEngine) -> bool {
    match db.take_task() {
        Some(task) => {
            let task: CompactionTask = task;
            let result = match task.run() {
                Ok(r) => r,
                Err(e) => panic!("task failed: {e:?}"),
            };
            db.apply_compaction_result(result);
            true
        }
        None => false,
    }
}

// as many tables as are made by values of this size, one each
fn fill(db: &mut LsmEngine, from: u32, to: u32) {
    for i in from..to {
        db.put(b(&format!("k{i:04}")), vec![(i % 251) as u8; 260 * 1024]).unwrap();
    }
}

#[test]
fn a_full_memtable_is_flushed() {
    let mut storage = Storage::new();
    let mut db = LsmEngine::open(&storage).unwrap();
    fill(&mut db, 0, 1);
    let s = db.stats();
    assert_eq!(s.mem_table_size_bytes, 0);
    assert_eq!(s.level_file_counts, vec![1, 0, 0, 0, 0, 0, 0]);
    assert_eq!(db.get(b"k0000").unwrap().unwrap().len(), 260 * 1024);
    storage.apply_all(db.take_ops());
    // the log is empty again, and the table is found through the manifest
    let log = storage.read(&FileName::Wal { cf: "default".to_string() }).unwrap();
    assert!(log.is_empty());
    let again = LsmEngine::open(&storage).unwrap();
    assert_eq!(again.get(b"k0000").unwrap(), db.get(b"k0000").unwrap());
    assert_eq!(again.write_seq(), 2);
}

#[test]
fn four_tables_are_merged_into_one() {
    let mut storage = Storage::new();
    let mut db = LsmEngine::open(&storage).unwrap();
    fill(&mut db, 0, 3);
    assert!(!run(&mut db));
    db.delete(b("k0001")).unwrap();
    fill(&mut db, 3, 4);
    assert_eq!(db.stats().level_file_counts[0], 4);
    let before = db.scan(b"", b"z").unwrap();
    assert!(run(&mut db));
    assert_eq!(db.stats().level_file_counts, vec![0, 1, 0, 0, 0, 0, 0]);
    assert_eq!(db.scan(b"", b"z").unwrap(), before);
    assert_eq!(before.len(), 3);
    // the engine knows of the deletion as long as it is open
    assert_eq!(db.key_write_seq("default", b"k0001").unwrap(), Some(4));
    storage.apply_all(db.take_ops());
    let again = LsmEngine::open(&storage).unwrap();
    assert_eq!(again.scan(b"", b"z").unwrap(), before);
    assert_eq!(again.stats().level_file_counts, vec![0, 1, 0, 0, 0, 0, 0]);
    // the tombstone is gone with the value that it hid
    assert_eq!(again.key_write_seq("default", b"k0001").unwrap(), None);
}

#[test]
fn a_large_level_is_merged_downwards() {
    let mut db = LsmEngine::open(&Storage::new()).unwrap();
    fill(&mut db, 0, 8);
    while run(&mut db) {}
    // level 1 has more than its mebibyte, so its table went on to level 2
    db.put(b("last"), b("one")).unwrap();
    while run(&mut db) {
        db.put(b("last"), b("again")).unwrap();
    }
    let counts = db.stats().level_file_counts;
    assert_eq!(counts[1], 0);
    assert_eq!(counts[2], 1);
    for i in 0..8 {
        assert!(db.get(format!("k{i:04}").as_bytes()).unwrap().is_some());
    }
}

#[test]
fn writes_during_a_compaction_are_kept() {
    let mut db = LsmEngine::open(&Storage::new()).unwrap();
    fill(&mut db, 0, 4);
    let task = db.take_task().unwrap();
    assert!(db.take_task().is_none());
    fill(&mut db, 4, 6);
    db.delete(b("k0000")).unwrap();
    db.apply_compaction_result(task.run().ok().unwrap());
    assert_eq!(db.stats().level_file_counts[..2], [2, 1]);
    assert_eq!(db.get(b"k0000").unwrap(), None);
    for i in 1..6 {
        assert!(db.get(format!("k{i:04}").as_bytes()).unwrap().is_some());
    }
}

// the files after each prefix of a list of operations
fn prefixes(storage: &dyn Fn() -> Storage, ops: &dyn Fn() -> Vec<FileOp>) -> Vec<Storage> {
    let n = ops().len();
    (0..=n)
        .map(|k| {
            let mut s = storage();
            for op in ops().into_iter().take(k) {
                s.apply(op);
            }
            s
        })
        .collect()
}

#[test]
fn a_crash_during_a_flush_loses_nothing() {
    let start = || {
        let mut s = Storage::new();
        let mut db = LsmEngine::open(&s).unwrap();
        db.put(b("old"), b("value")).unwrap();
        s.apply_all(db.take_ops());
        s
    };
    let ops = || {
        let mut db = LsmEngine::open(&start()).unwrap();
        db.put(b("new"), vec![1; 260 * 1024]).unwrap();
        db.take_ops()
    };
    let all = prefixes(&start, &ops);
    // the record, the table, the edit and the empty log
    assert_eq!(all.len(), 5);
    for (k, s) in all.iter().enumerate() {
        let db = LsmEngine::open(s).unwrap();
        assert_eq!(db.get(b"old").unwrap(), Some(b("value")));
        assert_eq!(db.get(b"new").unwrap().is_some(), k > 0);
    }
}

#[test]
fn a_crash_during_a_compaction_loses_nothing() {
    let start = || {
        let mut s = Storage::new();
        let mut db = LsmEngine::open(&s).unwrap();
        fill(&mut db, 0, 4);
        s.apply_all(db.take_ops());
        s
    };
    let ops = || {
        let mut db = LsmEngine::open(&start()).unwrap();
        db.put(b("x"), b("y")).unwrap();
        assert!(run(&mut db));
        db.take_ops()
    };
    for s in prefixes(&start, &ops) {
        let db = LsmEngine::open(&s).unwrap();
        for i in 0..4 {
            assert_eq!(db.get(format!("k{i:04}").as_bytes()).unwrap().unwrap().len(), 260 * 1024);
        }
    }
}

#[test]
fn a_torn_record_is_dropped_and_later_ones_are_kept() {
    let mut storage = Storage::new();
    let mut db = LsmEngine::open(&storage).unwrap();
    db.put(b("whole"), b("1")).unwrap();
    db.put(b("torn"), b("2")).unwrap();
    storage.apply_all(db.take_ops());
    let file = FileName::Wal { cf: "default".to_string() };
    let mut log = storage.read_or_empty(&file);
    log.truncate(log.len() - 3);
    storage.write(file, log);

    let mut db = LsmEngine::open(&storage).unwrap();
    assert_eq!(db.get(b"whole").unwrap(), Some(b("1")));
    assert_eq!(db.get(b"torn").unwrap(), None);
    db.put(b("later"), b("3")).unwrap();
    storage.apply_all(db.take_ops());
    let db = LsmEngine::open(&storage).unwrap();
    assert_eq!(db.get(b"later").unwrap(), Some(b("3")));
    assert_eq!(db.scan(b"", b"z").unwrap().len(), 2);
}

#[test]
fn a_torn_edit_is_dropped() {
    let mut storage = Storage::new();
    let mut db = LsmEngine::open(&storage).unwrap();
    db.create_cf("second").unwrap();
    storage.apply_all(db.take_ops());
    let mut log = storage.read_or_empty(&FileName::Manifest);
    log.truncate(log.len() - 1);
    storage.write(FileName::Manifest, log);
    let mut db = LsmEngine::open(&storage).unwrap();
    assert_eq!(db.list_cfs(), ["default"]);
    db.create_cf("third").unwrap();
    storage.apply_all(db.take_ops());
    assert_eq!(LsmEngine::open(&storage).unwrap().list_cfs(), ["default", "third"]);
}

#[test]
fn an_intact_database_is_not_rewritten() {
    let mut storage = Storage::new();
    let mut db = LsmEngine::open(&storage).unwrap();
    db.put(b("k"), b("v")).unwrap();
    storage.apply_all(db.take_ops());
    assert!(LsmEngine::open(&storage).unwrap().take_ops().is_empty());
}

#[test]
fn the_record_is_logged_first() {
    let mut db = LsmEngine::open(&Storage::new()).unwrap();
    db.take_ops();
    db.put(b("k"), vec![0; 260 * 1024]).unwrap();
    let ops = db.take_ops();
    assert!(matches!(&ops[0], FileOp::Append { file: FileName::Wal { .. }, .. }));
    assert!(matches!(&ops[1], FileOp::Write { file: FileName::Table { .. }, .. }));
    assert!(matches!(&ops[2], FileOp::Append { file: FileName::Manifest, .. }));
    assert!(matches!(&ops[3], FileOp::Write { file: FileName::Wal { .. }, .. }));
    assert_eq!(ops.len(), 4);
}

// the first job of a level below 0
fn deeper_task(db: &mut LsmEngine) -> CompactionTask {
    fill(db, 0, 8);
    loop {
        let task = db.take_task().unwrap();
        if task.job.level > 0 {
            return task;
        }
        db.apply_compaction_result(task.run().ok().unwrap());
        db.put(b("x"), b("y")).unwrap();
    }
}

#[test]
fn a_job_with_an_unreadable_table_fails() {
    for (len, expected) in [(10, EngineError::UnexpectedEof), (100, EngineError::InvalidData)] {
        let mut db = LsmEngine::open(&Storage::new()).unwrap();
        let mut task = deeper_task(&mut db);
        assert_eq!(task.job.level, 1);
        task.source_data[0].truncate(len);
        assert!(matches!(task.run(), Err(e) if e == expected));
    }
}

#[test]
fn a_job_with_a_damaged_table_fails() {
    let mut db = LsmEngine::open(&Storage::new()).unwrap();
    fill(&mut db, 0, 4);
    let mut task = db.take_task().unwrap();
    task.source_data[2][100] ^= 1;
    assert!(matches!(task.run(), Err(EngineError::InvalidData)));
}

// a database with one table, and what its files hold
fn with_one_table() -> Storage {
    let mut storage = Storage::new();
    let mut db = LsmEngine::open(&storage).unwrap();
    for i in 0..300u32 {
        db.put(b(&format!("k{i:03}")), vec![i as u8; 1000]).unwrap();
    }
    assert_eq!(db.stats().level_file_counts[0], 1);
    storage.apply_all(db.take_ops());
    storage
}

#[test]
fn a_damaged_table_is_opened_and_its_intact_keys_are_read() {
    let mut storage = with_one_table();
    let name = "L0_00000001.sst".to_string();
    let file = || FileName::Table { cf: "default".to_string(), name: name.clone() };
    let mut data = storage.read(&file()).unwrap().clone();
    data[500] ^= 1;
    storage.write(file(), data);
    assert!(LsmEngine::left_out_tables(&storage).is_empty());
    let mut db = LsmEngine::open(&storage).unwrap();
    assert_eq!(db.get(b"k000"), Err(EngineError::InvalidData));
    assert_eq!(db.key_write_seq("default", b"k000"), Err(EngineError::InvalidData));
    assert_eq!(db.get(b"k200").unwrap(), Some(vec![200; 1000]));
    assert_eq!(db.scan(b"k200", b"k201"), Err(EngineError::InvalidData));
    assert!(matches!(db.iter(), Err(EngineError::InvalidData)));
    assert!(matches!(db.snapshot(), Err(EngineError::InvalidData)));
    assert!(matches!(OccTransaction::begin(&db), Err(EngineError::InvalidData)));
    // what is written on top of the damage is read
    db.put(b("k000"), b("new")).unwrap();
    assert_eq!(db.get(b"k000").unwrap(), Some(b("new")));
    db.delete(b("k001")).unwrap();
    assert_eq!(db.get(b"k001").unwrap(), None);
}

#[test]
fn files_that_are_no_tables_are_listed() {
    let mut storage = with_one_table();
    let name = "L0_00000001.sst".to_string();
    let file = FileName::Table { cf: "default".to_string(), name: name.clone() };
    storage.write(file, vec![0; 200]);
    let expected = ("default".to_string(), name, EngineError::InvalidData);
    assert_eq!(LsmEngine::left_out_tables(&storage), [expected]);
    assert_eq!(LsmEngine::open(&storage).unwrap().get(b"k000").unwrap(), None);
}

#[test]
fn a_batch_is_logged_with_one_operation() {
    let mut storage = Storage::new();
    let names = vec!["default".to_string(), "other".to_string()];
    let mut db = LsmEngine::open_with_cfs(&storage, &names).unwrap();
    storage.apply_all(db.take_ops());
    let mut batch = WriteBatch::new();
    batch.put("default", b("a"), b("1")).put("other", b("b"), b("2")).put("default", b("c"), b("3"));
    db.write_batch(batch).unwrap();
    let ops = db.take_ops();
    assert_eq!(ops.len(), 1);
    let FileOp::AppendAll { parts } = &ops[0] else { panic!("the batch was parted") };
    assert_eq!(parts.len(), 3);
    // without the operation nothing is there, with it all is
    let before = LsmEngine::open(&storage).unwrap();
    assert!(before.scan(b"", b"z").unwrap().is_empty());
    assert!(before.scan_cf("other", b"", b"z").unwrap().is_empty());
    storage.apply_all(ops);
    let after = LsmEngine::open(&storage).unwrap();
    assert_eq!(after.scan(b"", b"z").unwrap(), [(b("a"), b("1")), (b("c"), b("3"))]);
    assert_eq!(after.scan_cf("other", b"", b"z").unwrap(), [(b("b"), b("2"))]);
    assert_eq!(after.write_seq(), 2);
}

#[test]
fn a_record_may_be_cut_short_anywhere() {
    let base = || {
        let mut s = Storage::new();
        let mut db = LsmEngine::open(&s).unwrap();
        db.put(b("kept"), b("1")).unwrap();
        s.apply_all(db.take_ops());
        s
    };
    let mut db = LsmEngine::open(&base()).unwrap();
    db.put(b("lost"), b("2")).unwrap();
    let ops = db.take_ops();
    let FileOp::Append { data, .. } = &ops[0] else { panic!("the record comes first") };
    for cut in 0..data.len() {
        let mut s = base();
        let file = FileName::Wal { cf: "default".to_string() };
        s.apply(FileOp::Append { file, data: data[..cut].to_vec() });
        let db = LsmEngine::open(&s).unwrap();
        assert_eq!(db.scan(b"", b"z").unwrap(), vec![(b("kept"), b("1"))]);
        assert_eq!(db.write_seq(), 2);
    }
}
