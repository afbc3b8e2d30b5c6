// The write-ahead log.

use lsmdb::error::EngineError;
use lsmdb::storage::{FileName, Storage};
use lsmdb::wal::{Wal, WalRecord};

#[test]
fn put_is_recovered() {
    let mut wal = Wal::open(vec![]);
    wal.append_put(b"key".to_vec(), 1, b"value".to_vec());
    let records = Wal::recover(wal.bytes());
    assert_eq!(records.len(), 1);
    if let WalRecord::Put { key, seq, value } = &records[0] {
        assert_eq!(key, b"key");
        assert_eq!(*seq, 1);
        assert_eq!(value, b"value");
    } else {
        panic!("expected Put");
    }
}

#[test]
fn delete_is_recovered() {
    let mut wal = Wal::open(vec![]);
    wal.append_delete(b"key".to_vec(), 42);
    let records = Wal::recover(wal.bytes());
    assert_eq!(records.len(), 1);
    if let WalRecord::Delete { key, seq } = &records[0] {
        assert_eq!(key, b"key");
        assert_eq!(*seq, 42);
    } else {
        panic!("expected Delete");
    }
}

#[test]
fn put_ttl_is_recovered() {
    let mut wal = Wal::open(vec![]);
    wal.append_put_ttl(b"k".to_vec(), 7, b"v".to_vec(), 9_999_999);
    let records = Wal::recover(wal.bytes());
    assert_eq!(records.len(), 1);
    if let WalRecord::PutTtl { key, seq, value, expires_at } = &records[0] {
        assert_eq!(key, b"k");
        assert_eq!(*seq, 7);
        assert_eq!(value, b"v");
        assert_eq!(*expires_at, 9_999_999);
    } else {
        panic!("expected PutTtl");
    }
}

#[test]
fn delete_range_is_recovered() {
    let mut wal = Wal::open(vec![]);
    wal.append_delete_range(b"from".to_vec(), b"to".to_vec(), 5);
    let records = Wal::recover(wal.bytes());
    assert_eq!(records.len(), 1);
    if let WalRecord::DeleteRange { from, to, seq } = &records[0] {
        assert_eq!(from, b"from");
        assert_eq!(to, b"to");
        assert_eq!(*seq, 5);
    } else {
        panic!("expected DeleteRange");
    }
}

#[test]
fn multiple_records_all_recovered_in_order() {
    let mut wal = Wal::open(vec![]);
    wal.append_put(b"a".to_vec(), 1, b"va".to_vec());
    wal.append_delete(b"b".to_vec(), 2);
    wal.append_put_ttl(b"c".to_vec(), 3, b"vc".to_vec(), 12345);
    wal.append_delete_range(b"d".to_vec(), b"e".to_vec(), 4);
    let records = Wal::recover(wal.bytes());
    assert_eq!(records.len(), 4);
    assert!(matches!(&records[0], WalRecord::Put { seq: 1, .. }));
    assert!(matches!(&records[1], WalRecord::Delete { seq: 2, .. }));
    assert!(matches!(&records[2], WalRecord::PutTtl { seq: 3, .. }));
    assert!(matches!(&records[3], WalRecord::DeleteRange { seq: 4, .. }));
}

#[test]
fn recover_missing_file_returns_empty() {
    let storage = Storage::new();
    let data = storage.read_or_empty(&FileName::Wal { cf: "nonexistent".to_string() });
    let records = Wal::recover(&data);
    assert!(records.is_empty());
}

#[test]
fn crc_corruption_stops_recovery() {
    let mut wal = Wal::open(vec![]);
    wal.append_put(b"good".to_vec(), 1, b"value".to_vec());
    // flip a byte of the checksum, which is the last four bytes
    let mut bytes = wal.bytes().clone();
    let last = bytes.len() - 1;
    bytes[last] ^= 0xFF;

    let records = Wal::recover(&bytes);
    assert!(records.is_empty(), "CRC corruption should stop recovery before any record");
}

#[test]
fn truncated_file_returns_partial_records() {
    let mut wal = Wal::open(vec![]);
    wal.append_put(b"k1".to_vec(), 1, b"v1".to_vec());
    wal.append_put(b"k2".to_vec(), 2, b"v2".to_vec());
    let mut bytes = wal.bytes().clone();
    bytes.truncate(bytes.len() - 5);

    let records = Wal::recover(&bytes);
    assert_eq!(records.len(), 1);
    assert!(matches!(&records[0], WalRecord::Put { seq: 1, .. }));
}

// ---- further cases -------------------------------------------------------------

#[test]
fn bytes_of_a_record() {
    let mut wal = Wal::open(vec![]);
    let frame = wal.append_delete(b"ab".to_vec(), 0x0102);
    let mut payload = vec![1, 0, 0, 0, 2];
    payload.extend_from_slice(b"ab");
    payload.extend_from_slice(&[2, 1, 0, 0, 0, 0, 0, 0]);
    assert_eq!(frame[..payload.len()], payload[..]);
    assert_eq!(frame[payload.len()..], crc32fast::hash(&payload).to_le_bytes());
    assert_eq!(&frame, wal.bytes());
}

#[test]
fn bytes_of_a_put_with_expiry() {
    let mut wal = Wal::open(vec![]);
    let frame = wal.append_put_ttl(b"k".to_vec(), 3, b"vw".to_vec(), 258);
    let payload = [
        2, 0, 0, 0, 1, b'k', 3, 0, 0, 0, 0, 0, 0, 0, 2, 1, 0, 0, 0, 0, 0, 0, 0, 0, 0, 2, b'v', b'w',
    ];
    assert_eq!(frame[..payload.len()], payload);
    assert_eq!(frame.len(), payload.len() + 4);
}

#[test]
fn a_flipped_payload_byte_stops_recovery_there() {
    let mut wal = Wal::open(vec![]);
    let first = wal.append_put(b"k1".to_vec(), 1, b"v1".to_vec());
    wal.append_put(b"k2".to_vec(), 2, b"v2".to_vec());
    wal.append_put(b"k3".to_vec(), 3, b"v3".to_vec());
    let mut bytes = wal.bytes().clone();
    bytes[first.len() + 6] ^= 1;
    assert_eq!(Wal::recover(&bytes).len(), 1);
}

#[test]
fn every_change_that_keeps_the_lengths_stops_recovery_there() {
    let mut wal = Wal::open(vec![]);
    let first = wal.append_put(b"k1".to_vec(), 1, b"v1".to_vec());
    let second = wal.append_put(b"k2".to_vec(), 2, b"v2".to_vec());
    wal.append_put(b"k3".to_vec(), 3, b"v3".to_vec());
    // all but the two lengths, and the tag only where it stays unknown
    for i in (5..15).chain(19..second.len()) {
        for bit in 0..8 {
            let mut bytes = wal.bytes().clone();
            bytes[first.len() + i] ^= 1 << bit;
            assert_eq!(Wal::recover(&bytes).len(), 1);
        }
    }
    let mut bytes = wal.bytes().clone();
    bytes[first.len()] = 9;
    assert_eq!(Wal::recover(&bytes).len(), 1);
}

#[test]
fn frames_carry_their_records() {
    let mut wal = Wal::open(vec![]);
    let frame = wal.append_put(b"k".to_vec(), 9, b"v".to_vec());
    assert!(WalRecord::is_complete_frame(&frame));
    assert!(matches!(
        WalRecord::decode_frame(&frame),
        Ok(WalRecord::Put { seq: 9, .. })
    ));
    assert!(!WalRecord::is_complete_frame(&frame[..7]));
    assert!(matches!(WalRecord::decode_frame(&[]), Err(EngineError::UnexpectedEof)));
}

#[test]
fn records_come_with_their_bytes() {
    let mut wal = Wal::open(vec![]);
    let a = wal.append_put(b"k".to_vec(), 1, b"v".to_vec());
    let b = wal.append_delete_range(b"a".to_vec(), b"c".to_vec(), 2);
    let both = WalRecord::recover_from_reader_with_raw(wal.bytes());
    assert_eq!(both.len(), 2);
    assert_eq!(both[0].1, a);
    assert_eq!(both[1].1, b);
}
