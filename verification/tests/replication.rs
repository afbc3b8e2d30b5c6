// Sending a log to a follower.

use lsmdb::error::EngineError;
use lsmdb::replication::{
    apply_frame, apply_record, next_backoff_ms, next_frames, read_wal_tail, Position, ReplicationServer,
    FIRST_BACKOFF_MS, MAX_BACKOFF_MS,
};
use lsmdb::storage::{FileName, Storage};
use lsmdb::wal::{Wal, WalRecord};
use lsmdb::LsmEngine;

fn b(s: &str) -> Vec<u8> {
    s.as_bytes().to_vec()
}

// the frames that were sent one after the other, each behind its length
fn split(wire: &[u8]) -> Vec<Vec<u8>> {
    let mut frames = vec![];
    let mut at = 0;
    while at < wire.len() {
        let n = u32::from_be_bytes(wire[at..at + 4].try_into().unwrap()) as usize;
        frames.push(wire[at + 4..at + 4 + n].to_vec());
        at += 4 + n;
    }
    frames
}

#[test]
fn a_follower_keeps_up_with_the_leader() {
    let mut files = Storage::new();
    let mut leader = LsmEngine::open(&files).unwrap();
    let mut follower = LsmEngine::open(&Storage::new()).unwrap();
    let mut at = Position::start();
    for round in 0u32..3 {
        for i in 0u32..5 {
            leader.put(b(&format!("k{i}")), b(&format!("v{round}{i}"))).unwrap();
        }
        leader.delete(b("k1")).unwrap();
        leader.put_until_cf("default", b("t"), b("x"), 1_000).unwrap();
        leader.delete_range(b("k3"), b("k5")).unwrap();
        files.apply_all(leader.take_ops());
        let log = files.read_or_empty(&FileName::Wal { cf: "default".to_string() });
        let (wire, next) = next_frames(&log, at);
        assert_eq!(next.sent, log.len() as u64);
        assert_eq!(next.newest + 1, leader.write_seq());
        at = next;
        for frame in split(&wire) {
            assert!(WalRecord::is_complete_frame(&frame));
            apply_frame(&mut follower, "default", &frame).unwrap();
        }
        for now in [999, 1_000] {
            assert_eq!(
                follower.scan_cf_at("default", b"", b"z", now).unwrap(),
                leader.scan_cf_at("default", b"", b"z", now).unwrap()
            );
        }
        // nothing is sent twice
        assert_eq!(next_frames(&log, at), (vec![], at));
    }
}

#[test]
fn the_tail_starts_at_an_offset() {
    let mut wal = Wal::open(vec![]);
    let first = wal.append_put(b("a"), 1, b("1"));
    let second = wal.append_delete(b("a"), 2);
    assert_eq!(read_wal_tail(wal.bytes(), 0).len(), 2);
    let tail = read_wal_tail(wal.bytes(), first.len() as u64);
    assert_eq!(tail.len(), 1);
    assert_eq!(tail[0].1, second);
    assert!(read_wal_tail(wal.bytes(), 1_000_000).is_empty());
    let (wire, next) = next_frames(wal.bytes(), Position { sent: first.len() as u64, newest: 1 });
    assert_eq!(wire[..4], (second.len() as u32).to_be_bytes());
    assert_eq!(wire[4..], second);
    assert_eq!(next, Position { sent: wal.bytes().len() as u64, newest: 2 });
}

#[test]
fn a_torn_record_is_sent_later() {
    let mut wal = Wal::open(vec![]);
    let first = wal.append_put(b("a"), 1, b("1"));
    wal.append_put(b("b"), 2, b("2"));
    let torn = &wal.bytes()[..first.len() + 3];
    let at = next_frames(torn, Position::start()).1;
    assert_eq!(at, Position { sent: first.len() as u64, newest: 1 });
    assert_eq!(next_frames(wal.bytes(), at).1.sent, wal.bytes().len() as u64);
}

#[test]
fn a_follower_goes_on_after_the_log_was_emptied() {
    let mut wal = Wal::open(vec![]);
    wal.append_put(b("a"), 1, b("1"));
    wal.append_put(b("b"), 2, b("2"));
    let (_, at) = next_frames(wal.bytes(), Position::start());
    assert_eq!(at, Position { sent: wal.bytes().len() as u64, newest: 2 });
    // a flush has emptied the log
    assert_eq!(next_frames(&[], at), (vec![], Position { sent: 0, newest: 2 }));
    let mut fresh = Wal::open(vec![]);
    let third = fresh.append_put(b("c"), 3, b("3"));
    let (wire, next) = next_frames(fresh.bytes(), at);
    assert_eq!(split(&wire), [third.clone()]);
    assert_eq!(next, Position { sent: third.len() as u64, newest: 3 });
    // it may have grown past what was sent before
    let fourth = fresh.append_put(b("d"), 4, vec![7; 1000]);
    let (wire, late) = next_frames(fresh.bytes(), at);
    assert_eq!(split(&wire), [third, fourth.clone()]);
    assert_eq!(late, Position { sent: fresh.bytes().len() as u64, newest: 4 });
    let (wire, next) = next_frames(fresh.bytes(), next);
    assert_eq!(split(&wire), [fourth]);
    assert_eq!(next, late);
}

#[test]
fn refused_frames() {
    let mut db = LsmEngine::open(&Storage::new()).unwrap();
    assert_eq!(apply_frame(&mut db, "default", &[]), Err(EngineError::UnexpectedEof));
    let frame = Wal::open(vec![]).append_put(b("a"), 1, b("1"));
    assert_eq!(apply_frame(&mut db, "nope", &frame), Err(EngineError::NotFound));
    assert_eq!(
        apply_record(&mut db, "nope", WalRecord::Delete { key: b("k"), seq: 9 }),
        Err(EngineError::NotFound)
    );
    assert_eq!(db.write_seq(), 1);
}

#[test]
fn the_follower_numbers_records_itself() {
    let mut db = LsmEngine::open(&Storage::new()).unwrap();
    let record = WalRecord::Put { key: b("k"), seq: 900, value: b("v") };
    apply_record(&mut db, "default", record).unwrap();
    assert_eq!(db.key_write_seq("default", b"k").unwrap(), Some(1));
}

#[test]
fn waiting_times_double_up_to_half_a_minute() {
    let mut waited = FIRST_BACKOFF_MS;
    let mut all = vec![waited];
    for _ in 0..9 {
        waited = next_backoff_ms(waited);
        all.push(waited);
    }
    assert_eq!(all, [200, 400, 800, 1600, 3200, 6400, 12800, 25600, 30000, 30000]);
    assert_eq!(next_backoff_ms(u64::MAX), MAX_BACKOFF_MS);
}

#[test]
fn a_server_knows_its_log() {
    let s = ReplicationServer::new("127.0.0.1:7000", "data/default/wal.log", "default");
    assert_eq!(s.bind_addr, "127.0.0.1:7000");
    assert_eq!(s.wal_path, "data/default/wal.log");
    assert_eq!(s.cf, "default");
}
