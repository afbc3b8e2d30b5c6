// The bytes of logs, manifests, filters and table files.

use lsmdb::bloom::BloomFilter;
use lsmdb::compaction::{
    compact_l0_to_l1, compact_level, l0_needs_compaction, merge_entries, next_sstable_path,
};
use lsmdb::error::EngineError;
use lsmdb::iter::SstableBlockIter;
use lsmdb::manifest::{Manifest, ManifestRecord};
use lsmdb::memtable::{MemEntry, MemTable};
use lsmdb::sstable::SSTable;
use lsmdb::text::{seq_from_filename, sstable_file_name};
use lsmdb::wal::{encode_record, read_frame, Wal, WalRecord};

fn b(s: &str) -> Vec<u8> {
    s.as_bytes().to_vec()
}

// ---- checksums and log records ---------------------------------------------------

#[test]
fn checksum_of_a_record_is_crc_32() {
    // the checksum of nine digits is a well-known value, here of a payload
    assert_eq!(crc32fast::hash(b"123456789"), 0xCBF4_3926);
    let frame = encode_record(&WalRecord::Delete { key: vec![], seq: 0 });
    assert_eq!(frame.len(), 17);
    assert_eq!(frame[..13], [1, 0, 0, 0, 0, 0, 0, 0, 0, 0, 0, 0, 0]);
    assert_eq!(frame[13..], crc32fast::hash(&frame[..13]).to_le_bytes());
}

#[test]
fn bytes_of_a_put_and_of_a_range() {
    let put = encode_record(&WalRecord::Put { key: b("k"), seq: 258, value: b("vw") });
    assert_eq!(
        put[..20],
        [0, 0, 0, 0, 1, b'k', 2, 1, 0, 0, 0, 0, 0, 0, 0, 0, 0, 2, b'v', b'w']
    );
    let range = encode_record(&WalRecord::DeleteRange { from: b("a"), to: b("cd"), seq: 1 });
    assert_eq!(
        range[..20],
        [3, 0, 0, 0, 1, b'a', 0, 0, 0, 2, b'c', b'd', 1, 0, 0, 0, 0, 0, 0, 0]
    );
}

#[test]
fn a_frame_is_read_where_it_stands() {
    let mut log = encode_record(&WalRecord::Delete { key: b("x"), seq: 1 });
    let at = log.len();
    log.extend(encode_record(&WalRecord::Put { key: b("y"), seq: 2, value: b("z") }));
    match read_frame(&log, at) {
        Some((WalRecord::Put { key, seq: 2, value }, next)) => {
            assert_eq!((key, value, next), (b("y"), b("z"), log.len()));
        }
        other => panic!("unexpected {other:?}"),
    }
    assert!(read_frame(&log, at + 1).is_none());
    assert!(read_frame(&log, log.len()).is_none());
}

// ---- manifest --------------------------------------------------------------------

fn add(cf: &str, level: u32, name: &str) -> ManifestRecord {
    ManifestRecord::AddFile { cf: cf.to_string(), level, filename: name.to_string() }
}

#[test]
fn bytes_of_an_edit() {
    let mut m = Manifest::open(vec![]);
    let frame = m.append(&add("cf", 3, "f"));
    let payload = [2, 3, 2, 0, b'c', b'f', 1, 0, b'f'];
    assert_eq!(frame[..4], [9, 0, 0, 0]);
    assert_eq!(frame[4..13], payload);
    assert_eq!(frame[13..], crc32fast::hash(&payload).to_le_bytes());
    let frame = m.append(&ManifestRecord::CreateCF { name: "é".to_string() });
    assert_eq!(frame[4..9], [1, 2, 0, 0xc3, 0xa9]);
}

#[test]
fn files_that_were_removed_are_not_live() {
    let mut m = Manifest::open(vec![]);
    m.append(&ManifestRecord::CreateCF { name: "default".to_string() });
    m.append(&add("default", 0, "L0_00000001.sst"));
    m.append(&add("default", 0, "L0_00000002.sst"));
    m.append(&add("default", 1, "L1_00000003.sst"));
    m.append(&ManifestRecord::RemoveFile {
        cf: "default".to_string(),
        filename: "L0_00000001.sst".to_string(),
    });
    m.append(&ManifestRecord::RemoveFile {
        cf: "default".to_string(),
        filename: "absent".to_string(),
    });
    let state = Manifest::recover(m.bytes());
    assert!(state.has_cf(&"default".to_string()));
    assert!(!state.has_cf(&"other".to_string()));
    assert_eq!(
        state.files_in(&"default".to_string()),
        vec![(0, "L0_00000002.sst".to_string()), (1, "L1_00000003.sst".to_string())]
    );
    assert!(state.files_in(&"other".to_string()).is_empty());
}

#[test]
fn a_manifest_is_read_up_to_damage() {
    let mut m = Manifest::open(vec![]);
    let first = m.append(&ManifestRecord::CreateCF { name: "a".to_string() });
    m.append(&ManifestRecord::CreateCF { name: "b".to_string() });
    assert_eq!(Manifest::read_records(m.bytes()).len(), 2);
    let mut damaged = m.bytes().clone();
    damaged[first.len() + 5] ^= 1;
    assert_eq!(Manifest::read_records(&damaged).len(), 1);
    damaged[5] ^= 1;
    assert_eq!(Manifest::read_records(&damaged).len(), 0);
    // wherever behind its length the second edit is changed, it is not read
    for i in first.len() + 4..m.bytes().len() {
        let mut damaged = m.bytes().clone();
        damaged[i] ^= 0x80;
        assert_eq!(Manifest::read_records(&damaged).len(), 1);
    }
}

#[test]
fn a_name_that_is_no_text_ends_the_manifest() {
    let payload = [1u8, 1, 0, 0xff];
    let mut log = vec![4, 0, 0, 0];
    log.extend(payload);
    log.extend(crc32fast::hash(&payload).to_le_bytes());
    assert!(Manifest::read_records(&log).is_empty());
}

// ---- file names ------------------------------------------------------------------

#[test]
fn names_of_table_files() {
    assert_eq!(sstable_file_name(0, 7), "L0_00000007.sst");
    assert_eq!(sstable_file_name(3, 123_456_789_012), "L3_123456789012.sst");
    assert_eq!(seq_from_filename("L0_00000007.sst"), Some(7));
    assert_eq!(seq_from_filename("L3_123456789012.sst"), Some(123_456_789_012));
    assert_eq!(seq_from_filename("wal.log"), None);
    assert_eq!(seq_from_filename("L0_.sst"), None);
    assert_eq!(seq_from_filename("L0_12x.sst"), None);
    assert_eq!(next_sstable_path("data", 1, 2), "data/L1_00000002.sst");
    assert_eq!(next_sstable_path("data/", 1, 2), "data/L1_00000002.sst");
}

// ---- bloom filters ---------------------------------------------------------------

#[test]
fn every_inserted_key_may_be_there() {
    let mut f = BloomFilter::new(1000);
    for i in 0u32..1000 {
        f.insert(format!("key{i}").as_bytes());
    }
    assert!((0u32..1000).all(|i| f.may_contain(format!("key{i}").as_bytes())));
    let wrong = (1000u32..11_000).filter(|i| f.may_contain(format!("key{i}").as_bytes())).count();
    assert!(wrong < 300, "{wrong} false positives in 10000");
}

#[test]
fn bytes_of_a_filter() {
    let mut f = BloomFilter::new(0);
    assert_eq!(f.to_bytes(), [64u64, 7, 0].map(u64::to_le_bytes).concat());
    assert!(!f.may_contain(b"a"));
    f.insert(b"a");
    // probe i is the sum of FNV-1a and i times djb2
    let (h1, h2) = (0xaf63_dc4c_8601_ec8c_u64, 5381 * 33 + 97);
    let mut word = 0u64;
    for i in 0..7u64 {
        word |= 1 << (h1.wrapping_add(i * h2) % 64);
    }
    assert_eq!(f.to_bytes(), [64u64, 7, word].map(u64::to_le_bytes).concat());
    let again = BloomFilter::from_bytes(&f.to_bytes());
    assert!(again.is_sound());
    assert!(again.may_contain(b"a"));
    assert_eq!(again.to_bytes(), f.to_bytes());
}

#[test]
fn probes_of_a_large_filter() {
    // the reference values of 64-bit FNV-1a, and of djb2, for no bytes and for one
    let keys: [(&[u8], u64, u64); 2] = [
        (b"", 0xcbf2_9ce4_8422_2325, 5381),
        (b"a", 0xaf63_dc4c_8601_ec8c, 5381 * 33 + 97),
    ];
    for (key, h1, h2) in keys {
        let mut f = BloomFilter::new(100);
        f.insert(key);
        let mut words = vec![0u64; 15];
        for i in 0..7u64 {
            let bit = h1.wrapping_add(i * h2) % 958;
            words[bit as usize / 64] |= 1 << (bit % 64);
        }
        let mut expected = [958u64, 7].map(u64::to_le_bytes).concat();
        for word in words {
            expected.extend(word.to_le_bytes());
        }
        assert_eq!(f.to_bytes(), expected);
    }
}

#[test]
fn size_of_a_filter() {
    let bits = |n: usize| u64::from_le_bytes(BloomFilter::new(n).to_bytes()[..8].try_into().unwrap());
    assert_eq!(bits(1), 64);
    assert_eq!(bits(6), 64);
    assert_eq!(bits(7), 67);
    assert_eq!(bits(1000), 9585);
    for n in [10, 199, 200, 201, 12_345, 99_999] {
        assert_eq!(bits(n), (n as f64 * 9.585) as u64);
    }
}

// ---- table files -----------------------------------------------------------------

fn table(entries: &[(&str, Option<&str>, u64)]) -> SSTable {
    let mut mem = MemTable::new();
    for (k, v, seq) in entries {
        match v {
            Some(v) => mem.put_seq(b(k), b(v), *seq),
            None => mem.delete_seq(b(k), *seq),
        }
    }
    SSTable::write_from_memtable("L0_00000001.sst".to_string(), &mem, 0)
}

// the checksum bit by bit
fn crc_by_bits(data: &[u8]) -> u32 {
    let mut x = !0u32;
    for byte in data {
        x ^= *byte as u32;
        for _ in 0..8 {
            x = if x & 1 == 1 { (x >> 1) ^ 0xEDB8_8320 } else { x >> 1 };
        }
    }
    !x
}

#[test]
fn checksums_of_log_records() {
    assert_eq!(crc_by_bits(b"123456789"), 0xCBF4_3926);
    for len in [0, 1, 2, 3, 4, 7, 8, 15, 16, 17, 63, 64, 65, 127, 300, 5000] {
        let value: Vec<u8> = (0..len).map(|i| (i * 7 + len) as u8).collect();
        let frame = Wal::open(vec![]).append_put(b("key"), 9, value);
        let (payload, crc) = frame.split_at(frame.len() - 4);
        assert_eq!(crc, crc_by_bits(payload).to_le_bytes());
    }
}

#[test]
fn bytes_of_a_table() {
    let mut mem = MemTable::new();
    mem.put_ttl_seq(b("c"), b("d"), 3, 77);
    mem.put_seq(b("a"), b("bb"), 1);
    mem.delete_seq(b("b"), 2);
    let t = SSTable::write_from_memtable("t.sst".to_string(), &mem, 0);
    let data = t.file_data();
    let mut body = vec![3, 0, 0, 0];
    body.extend([1, 0, 0, 0, b'a', 1, 0, 0, 0, 0, 0, 0, 0, 0, 2, 0, 0, 0, b'b', b'b']);
    body.extend([1, 0, 0, 0, b'b', 2, 0, 0, 0, 0, 0, 0, 0, 1]);
    body.extend([1, 0, 0, 0, b'c', 3, 0, 0, 0, 0, 0, 0, 0, 2, 77, 0, 0, 0, 0, 0, 0, 0]);
    body.extend([1, 0, 0, 0, b'd']);
    let mut expected = (body.len() as u32).to_le_bytes().to_vec();
    expected.extend(&body);
    expected.extend(crc_by_bits(&body).to_le_bytes());
    let index_at = expected.len() as u64;
    expected.extend([1, 0, 0, 0, b'a', 0, 0, 0, 0, 0, 0, 0, 0]);
    let bloom_at = expected.len() as u64;
    assert_eq!(data[..expected.len()], expected);
    let footer = &data[data.len() - 56..];
    let field = |i: usize| u64::from_le_bytes(footer[8 * i..8 * i + 8].try_into().unwrap());
    assert_eq!(field(0), index_at);
    assert_eq!(field(1), bloom_at);
    assert_eq!(field(2), data.len() as u64 - 56 - bloom_at);
    assert_eq!(field(3), 3);
    assert_eq!(field(4), 1);
    assert_eq!(field(5), 3);
    assert_eq!(field(6), 0xCAFE_F00D_1234_5678);
}

#[test]
fn a_table_gives_back_what_was_written() {
    let t = table(&[("b", Some("2"), 5), ("a", Some("1"), 4), ("c", None, 6)]);
    assert_eq!(t.get(b"a"), Ok(Some(Some(b("1")))));
    assert_eq!(t.get(b"c"), Ok(Some(None)));
    assert_eq!(t.get(b"d"), Ok(None));
    assert_eq!(t.entry(b"b").unwrap().unwrap().seq, 5);
    assert_eq!(t.entry_count(), 3);
    assert_eq!(t.max_write_seq(), 6);
    let again = SSTable::open("L0_00000001.sst".to_string(), t.file_data().clone(), 0).unwrap();
    let keys: Vec<Vec<u8>> = again.scan_all().unwrap().into_iter().map(|e| e.0).collect();
    assert_eq!(keys, [b("a"), b("b"), b("c")]);
    assert_eq!(again.get(b"b"), Ok(Some(Some(b("2")))));
    assert_eq!(again.file_name(), "L0_00000001.sst");
    assert_eq!(again.file_level(), 0);
}

#[test]
fn a_table_of_many_blocks_is_searched() {
    let mut mem = MemTable::new();
    for i in 0u64..500 {
        mem.put_seq(format!("key{i:05}").into_bytes(), vec![i as u8; 100], i);
    }
    let t = SSTable::write_from_memtable("t.sst".to_string(), &mem, 0);
    assert!(t.block_count() > 10);
    for i in 0u64..500 {
        assert_eq!(t.get(format!("key{i:05}").as_bytes()), Ok(Some(Some(vec![i as u8; 100]))));
        assert_eq!(t.get(format!("key{i:05}x").as_bytes()), Ok(None));
    }
    let blocks: usize = (0..t.block_count()).map(|j| t.load_block(j).unwrap().len()).sum();
    assert_eq!(blocks, 500);
}

#[test]
fn tables_with_damaged_sections_are_not_opened() {
    let good = table(&[("a", Some("1"), 1)]).file_data().clone();
    let open = |data: Vec<u8>| SSTable::open("t.sst".to_string(), data, 0).map(|_| ());
    assert_eq!(open(good.clone()), Ok(()));
    assert_eq!(open(vec![0; 55]), Err(EngineError::UnexpectedEof));
    assert_eq!(open(vec![0; 56]), Err(EngineError::InvalidData));
    let mut no_magic = good.clone();
    *no_magic.last_mut().unwrap() ^= 1;
    assert_eq!(open(no_magic), Err(EngineError::InvalidData));
    // one block more than there is
    let mut count = good.clone();
    let at = count.len() - 24;
    count[at] += 1;
    assert_eq!(open(count), Err(EngineError::InvalidData));
    // a filter without bits
    let mut bits = good.clone();
    let at = u64::from_le_bytes(bits[bits.len() - 48..bits.len() - 40].try_into().unwrap());
    bits[at as usize..at as usize + 8].fill(0);
    assert_eq!(open(bits), Err(EngineError::InvalidData));
}

#[test]
fn the_intact_keys_of_a_damaged_table_are_read() {
    let mut mem = MemTable::new();
    for i in 0u64..500 {
        mem.put_seq(format!("key{i:05}").into_bytes(), vec![i as u8; 100], i);
    }
    let whole = SSTable::write_from_memtable("t.sst".to_string(), &mem, 0);
    assert!(!whole.check_damage());
    let (from, to) = (whole.block_offset(2) as usize, whole.block_offset(3) as usize);
    for at in [from, from + 4, from + 20, from + 1000, to - 1] {
        let mut data = whole.file_data().clone();
        data[at] ^= 4;
        let t = SSTable::open("t.sst".to_string(), data, 0).unwrap();
        assert!(t.check_damage());
        for i in 0u64..500 {
            let key = format!("key{i:05}").into_bytes();
            let expected = if t.block_of(&key) == Some(2) {
                Err(EngineError::InvalidData)
            } else {
                Ok(Some(Some(vec![i as u8; 100])))
            };
            assert_eq!(t.get(&key), expected);
        }
        assert!(t.load_block(2).is_err() && t.load_block(1).is_ok() && t.load_block(3).is_ok());
        assert!(matches!(t.scan_all(), Err(EngineError::InvalidData)));
        assert_eq!(t.scan_intact().len(), 500 - whole.load_block(2).unwrap().len());
        assert_eq!((t.entry_count(), t.max_write_seq()), (500, 499));
        // an iteration ends where the damage begins
        let mut it = SstableBlockIter::new(&t, u64::MAX);
        let mut n = 0;
        while it.next().is_some() {
            n += 1;
        }
        let before: usize = (0..2).map(|j| t.load_block(j).unwrap().len()).sum();
        assert_eq!(n, before);
    }
}

// ---- merging ---------------------------------------------------------------------

fn live(v: &str) -> MemEntry {
    MemEntry { value: Some(b(v)), seq: 0, expires_at: 0 }
}

fn dead() -> MemEntry {
    MemEntry { value: None, seq: 0, expires_at: 0 }
}

#[test]
fn newer_entries_hide_older_ones() {
    let newer = vec![(b("a"), live("new")), (b("c"), dead())];
    let older = vec![(b("a"), live("old")), (b("b"), live("kept")), (b("c"), live("hidden"))];
    let keep = merge_entries(
        newer.iter().map(|(k, e)| (k.clone(), e.copy())).collect(),
        older.iter().map(|(k, e)| (k.clone(), e.copy())).collect(),
        false,
    );
    let values: Vec<(Vec<u8>, Option<Vec<u8>>)> = keep.into_iter().map(|(k, e)| (k, e.value)).collect();
    assert_eq!(
        values,
        vec![(b("a"), Some(b("new"))), (b("b"), Some(b("kept"))), (b("c"), None)]
    );
    let drop = merge_entries(newer, older, true);
    let keys: Vec<Vec<u8>> = drop.into_iter().map(|(k, _)| k).collect();
    assert_eq!(keys, [b("a"), b("b")]);
}

#[test]
fn level_0_is_merged_into_level_1() {
    let oldest = table(&[("a", Some("1"), 1), ("b", Some("1"), 2)]).file_data().clone();
    let newest = table(&[("a", None, 3), ("c", Some("3"), 4)]).file_data().clone();
    let below = table(&[("d", Some("0"), 0)]).file_data().clone();
    let t = compact_l0_to_l1(vec![oldest, newest], vec![below], true, 9).unwrap().new_sst.unwrap();
    assert_eq!(t.file_name(), "L1_00000009.sst");
    assert_eq!(t.file_level(), 1);
    let keys: Vec<Vec<u8>> = t.scan_all().unwrap().into_iter().map(|e| e.0).collect();
    assert_eq!(keys, [b("b"), b("c"), b("d")]);
}

#[test]
fn nothing_is_written_where_nothing_is_left() {
    let file = table(&[("a", None, 1)]).file_data().clone();
    let outcome = compact_l0_to_l1(vec![file], vec![], true, 1).unwrap();
    assert!(outcome.new_sst.is_none());
    assert_eq!(outcome.dropped.len(), 1);
    assert_eq!((outcome.dropped[0].0.clone(), outcome.dropped[0].1.seq), (b("a"), 1));
    let file = table(&[("a", None, 1)]).file_data().clone();
    let outcome = compact_l0_to_l1(vec![file], vec![], false, 1).unwrap();
    assert!(outcome.new_sst.is_some());
    assert!(outcome.dropped.is_empty());
}

#[test]
fn a_level_is_merged_into_the_next() {
    let victim = table(&[("a", Some("new"), 2)]).file_data().clone();
    let next = table(&[("a", Some("old"), 1), ("b", Some("x"), 1)]).file_data().clone();
    let t = compact_level(2, victim, vec![next], false, 5).ok().unwrap().new_sst.unwrap();
    assert_eq!(t.file_name(), "L3_00000005.sst");
    assert_eq!(t.get(b"a"), Ok(Some(Some(b("new")))));
    assert_eq!(t.get(b"b"), Ok(Some(Some(b("x")))));
    let failed = compact_level(2, vec![], vec![], false, 5);
    assert!(matches!(failed, Err(EngineError::UnexpectedEof)));
}

#[test]
fn damaged_tables_are_not_merged() {
    let good = || table(&[("a", Some("1"), 1)]).file_data().clone();
    let bad = || {
        let mut data = good();
        data[10] ^= 1;
        data
    };
    let invalid = |r: bool| assert!(r, "a damaged block was merged");
    invalid(matches!(compact_l0_to_l1(vec![bad()], vec![], true, 1), Err(EngineError::InvalidData)));
    let below = compact_l0_to_l1(vec![good()], vec![bad()], true, 1);
    invalid(matches!(below, Err(EngineError::InvalidData)));
    let victim = compact_level(2, bad(), vec![], false, 5);
    invalid(matches!(victim, Err(EngineError::InvalidData)));
    let next = compact_level(2, good(), vec![bad()], false, 5);
    invalid(matches!(next, Err(EngineError::InvalidData)));
    // what is no table at all is left out
    assert!(compact_l0_to_l1(vec![good(), vec![1, 2, 3]], vec![], true, 1).is_ok());
}

#[test]
fn level_0_may_have_three_files() {
    let files = |n: usize| -> Vec<SSTable> { (0..n).map(|_| table(&[("a", None, 1)])).collect() };
    assert!(!l0_needs_compaction(&files(3)));
    assert!(l0_needs_compaction(&files(4)));
}
