// Group commit.

use lsmdb::group_commit::GroupCommitWal;
use lsmdb::wal::{Wal, WalRecord};

#[test]
fn single_submit_is_recovered() {
    let mut gc = GroupCommitWal::open();
    let file = gc.submit(WalRecord::Put {
        key: b"hello".to_vec(),
        seq: 1,
        value: b"world".to_vec(),
    });

    let records = Wal::recover(&file);
    assert_eq!(records.len(), 1);
    assert!(matches!(&records[0], WalRecord::Put { seq: 1, .. }));
}

#[test]
fn all_record_types_survive_group_commit() {
    let mut gc = GroupCommitWal::open();
    let mut file = vec![];

    file.extend(gc.submit(WalRecord::Put { key: b"k".to_vec(), seq: 1, value: b"v".to_vec() }));
    file.extend(gc.submit(WalRecord::Delete { key: b"k".to_vec(), seq: 2 }));
    file.extend(gc.submit(WalRecord::PutTtl {
        key: b"t".to_vec(),
        seq: 3,
        value: b"v".to_vec(),
        expires_at: 9999,
    }));
    file.extend(gc.submit(WalRecord::DeleteRange {
        from: b"a".to_vec(),
        to: b"z".to_vec(),
        seq: 4,
    }));

    let records = Wal::recover(&file);
    assert_eq!(records.len(), 4);
    assert!(matches!(&records[0], WalRecord::Put { seq: 1, .. }));
    assert!(matches!(&records[1], WalRecord::Delete { seq: 2, .. }));
    assert!(matches!(&records[2], WalRecord::PutTtl { seq: 3, expires_at: 9999, .. }));
    assert!(matches!(&records[3], WalRecord::DeleteRange { seq: 4, .. }));
}

#[test]
fn concurrent_submits_all_recovered() {
    let mut gc = GroupCommitWal::open();
    let mut file = vec![];

    const THREADS: u64 = 8;
    const PER_THREAD: u64 = 25;

    // the writers take turns: all of them add a record before any of them leads
    for i in 0..PER_THREAD {
        let mut tickets = vec![];
        for t in 0..THREADS {
            let seq = t * PER_THREAD + i;
            tickets.push(gc.enqueue(WalRecord::Put {
                key: format!("k{seq}").into_bytes(),
                seq,
                value: b"v".to_vec(),
            }));
        }
        let mut flushes = 0;
        for ticket in tickets {
            if let Some(data) = gc.lead(ticket) {
                file.extend(data);
                flushes += 1;
            }
        }
        assert_eq!(flushes, 1);
    }

    let records = Wal::recover(&file);
    assert_eq!(
        records.len() as u64,
        THREADS * PER_THREAD,
        "all {} records must be recovered",
        THREADS * PER_THREAD
    );
}

// ---- further cases -------------------------------------------------------------

#[test]
fn a_record_that_comes_after_the_leader_waits_for_the_next() {
    let mut gc = GroupCommitWal::open();
    let first = gc.enqueue(WalRecord::Delete { key: b"a".to_vec(), seq: 1 });
    let mut file = gc.lead(first).unwrap();
    let second = gc.enqueue(WalRecord::Delete { key: b"b".to_vec(), seq: 2 });
    assert_eq!(second, first + 1);
    // the first writer finds that its record was written
    assert!(gc.lead(first).is_none());
    assert_eq!(gc.flush_count(), 1);
    assert_eq!(Wal::recover(&file).len(), 1);
    file.extend(gc.lead(second).unwrap());
    assert_eq!(gc.flush_count(), 2);
    assert_eq!(Wal::recover(&file).len(), 2);
}

#[test]
fn a_log_is_continued() {
    let mut wal = Wal::open(vec![]);
    wal.append_put(b"k".to_vec(), 1, b"v".to_vec());
    let mut file = wal.bytes().clone();
    let mut gc = GroupCommitWal::open();
    file.extend(gc.submit(WalRecord::Delete { key: b"k".to_vec(), seq: 2 }));
    let records = Wal::recover(&file);
    assert_eq!(records.len(), 2);
    assert!(matches!(&records[1], WalRecord::Delete { seq: 2, .. }));
}
