//! The write-ahead log: its record format, appending and recovery.
//!
//! Every mutation is logged before it touches the memtable. A record is
//!
//! - put: `[0x00][key_len u32 BE][key][seq u64 LE][val_len u32 BE][val]`
//! - delete: `[0x01][key_len u32 BE][key][seq u64 LE]`
//! - put with expiry: `[0x02][key_len u32 BE][key][seq u64 LE][expires_at u64 LE][val_len u32 BE][val]`
//! - range delete: `[0x03][from_len u32 BE][from][to_len u32 BE][to][seq u64 LE]`
//!
//! each followed by the CRC-32 of those bytes as four little-endian bytes.

use crate::bytes::{be_bytes, be_value, le_bytes, le_value, lemma_le_round_trip, lemma_le_value_round_trip,
    lemma_pow256_values, put_bytes, put_le};
use crate::codec::{lemma_take_le, lemma_take_le_splits, lemma_take_lp_be, lemma_take_lp_be_splits,
    lemma_take_n, lp_be, put_lp_be, read_le, read_lp_be, take_le, take_lp_be, take_n};
use crate::crc::{crc32, law_changed_byte_changes_checksum};
use crate::error::EngineError;
use vstd::prelude::*;
use vstd::slice::{slice_subrange, slice_to_vec};

verus! {

/// One logged mutation.
#[derive(Debug)]
pub enum WalRecord {
    Put { key: Vec<u8>, seq: u64, value: Vec<u8> },
    Delete { key: Vec<u8>, seq: u64 },
    PutTtl { key: Vec<u8>, seq: u64, value: Vec<u8>, expires_at: u64 },
    DeleteRange { from: Vec<u8>, to: Vec<u8>, seq: u64 },
}

/// A logged mutation as a mathematical value.
pub enum Record {
    Put { key: Seq<u8>, seq: u64, value: Seq<u8> },
    Delete { key: Seq<u8>, seq: u64 },
    PutTtl { key: Seq<u8>, seq: u64, value: Seq<u8>, expires_at: u64 },
    DeleteRange { from: Seq<u8>, to: Seq<u8>, seq: u64 },
}

impl View for WalRecord {
    type V = Record;

    open spec fn view(&self) -> Record {
        match *self {
            WalRecord::Put { key, seq, value } => Record::Put { key: key@, seq, value: value@ },
            WalRecord::Delete { key, seq } => Record::Delete { key: key@, seq },
            WalRecord::PutTtl { key, seq, value, expires_at } => Record::PutTtl {
                key: key@,
                seq,
                value: value@,
                expires_at,
            },
            WalRecord::DeleteRange { from, to, seq } => Record::DeleteRange {
                from: from@,
                to: to@,
                seq,
            },
        }
    }
}

impl Record {
    /// The sequence number that the record carries.
    pub open spec fn seq(self) -> u64 {
        match self {
            Record::Put { seq, .. } => seq,
            Record::Delete { seq, .. } => seq,
            Record::PutTtl { seq, .. } => seq,
            Record::DeleteRange { seq, .. } => seq,
        }
    }
}

/// The records of a sequence of executable ones.
pub open spec fn records(v: Seq<WalRecord>) -> Seq<Record> {
    v.map_values(|r: WalRecord| r@)
}

// ---- format ------------------------------------------------------------------

/// The bytes of a record without its checksum.
#[verifier::opaque]
pub open spec fn payload(r: Record) -> Seq<u8> {
    match r {
        Record::Put { key, seq, value } => seq![0u8] + (lp_be(key) + (le_bytes(seq as nat, 8)
            + lp_be(value))),
        Record::Delete { key, seq } => seq![1u8] + (lp_be(key) + le_bytes(seq as nat, 8)),
        Record::PutTtl { key, seq, value, expires_at } => seq![2u8] + (lp_be(key) + (le_bytes(
            seq as nat,
            8,
        ) + (le_bytes(expires_at as nat, 8) + lp_be(value)))),
        Record::DeleteRange { from, to, seq } => seq![3u8] + (lp_be(from) + (lp_be(to) + le_bytes(
            seq as nat,
            8,
        ))),
    }
}

/// A payload with a checksum behind it.
pub open spec fn sealed(p: Seq<u8>, crc: u32) -> Seq<u8> {
    p + le_bytes(crc as nat, 4)
}

/// The bytes of a record in the log.
pub open spec fn frame(r: Record) -> Seq<u8> {
    sealed(payload(r), crc32(payload(r)))
}

/// The bytes of a log that holds `rs`.
pub open spec fn log_of(rs: Seq<Record>) -> Seq<u8>
    decreases rs.len(),
{
    if rs.len() == 0 {
        Seq::empty()
    } else {
        frame(rs[0]) + log_of(rs.drop_first())
    }
}

/// The lengths of the record's fields can be written in four bytes.
pub open spec fn fits(r: Record) -> bool {
    match r {
        Record::Put { key, value, .. } => key.len() < 0x1_0000_0000 && value.len() < 0x1_0000_0000,
        Record::Delete { key, .. } => key.len() < 0x1_0000_0000,
        Record::PutTtl { key, value, .. } => key.len() < 0x1_0000_0000 && value.len()
            < 0x1_0000_0000,
        Record::DeleteRange { from, to, .. } => from.len() < 0x1_0000_0000 && to.len()
            < 0x1_0000_0000,
    }
}

/// Every record of a sequence fits.
pub open spec fn all_fit(rs: Seq<Record>) -> bool {
    forall|i: int| 0 <= i < rs.len() ==> fits(#[trigger] rs[i])
}

/// The fields after the tag of a put.
pub open spec fn parse_put(s: Seq<u8>) -> Option<(Record, Seq<u8>)> {
    match take_lp_be(s) {
        Some((key, r1)) => match take_le(r1, 8) {
            Some((seq, r2)) => match take_lp_be(r2) {
                Some((value, r3)) => Some((Record::Put { key, seq: seq as u64, value }, r3)),
                None => None,
            },
            None => None,
        },
        None => None,
    }
}

/// The fields after the tag of a delete.
pub open spec fn parse_delete(s: Seq<u8>) -> Option<(Record, Seq<u8>)> {
    match take_lp_be(s) {
        Some((key, r1)) => match take_le(r1, 8) {
            Some((seq, r2)) => Some((Record::Delete { key, seq: seq as u64 }, r2)),
            None => None,
        },
        None => None,
    }
}

/// The fields after the tag of a put with expiry.
pub open spec fn parse_put_ttl(s: Seq<u8>) -> Option<(Record, Seq<u8>)> {
    match take_lp_be(s) {
        Some((key, r1)) => match take_le(r1, 8) {
            Some((seq, r2)) => match take_le(r2, 8) {
                Some((expires_at, r3)) => match take_lp_be(r3) {
                    Some((value, r4)) => Some(
                        (
                            Record::PutTtl {
                                key,
                                seq: seq as u64,
                                value,
                                expires_at: expires_at as u64,
                            },
                            r4,
                        ),
                    ),
                    None => None,
                },
                None => None,
            },
            None => None,
        },
        None => None,
    }
}

/// The fields after the tag of a range delete.
pub open spec fn parse_delete_range(s: Seq<u8>) -> Option<(Record, Seq<u8>)> {
    match take_lp_be(s) {
        Some((from, r1)) => match take_lp_be(r1) {
            Some((to, r2)) => match take_le(r2, 8) {
                Some((seq, r3)) => Some((Record::DeleteRange { from, to, seq: seq as u64 }, r3)),
                None => None,
            },
            None => None,
        },
        None => None,
    }
}

/// The record at the front of `s`, without its checksum, and what follows it.
/// A tag that is none of the four is read as a delete.
#[verifier::opaque]
pub open spec fn parse_payload(s: Seq<u8>) -> Option<(Record, Seq<u8>)> {
    if s.len() == 0 {
        None
    } else if s[0] == 0 {
        parse_put(s.skip(1))
    } else if s[0] == 2 {
        parse_put_ttl(s.skip(1))
    } else if s[0] == 3 {
        parse_delete_range(s.skip(1))
    } else {
        parse_delete(s.skip(1))
    }
}

/// The record at the front of `s` with what follows its checksum: none where
/// the bytes run out or the checksum is not that of the payload.
pub open spec fn parse_frame(s: Seq<u8>) -> Option<(Record, Seq<u8>)> {
    match parse_payload(s) {
        Some((r, rest)) => match take_le(rest, 4) {
            Some((crc, tail)) => if crc == crc32(s.take(s.len() - rest.len())) {
                Some((r, tail))
            } else {
                None
            },
            None => None,
        },
        None => None,
    }
}

/// What recovery reads from a log: records up to the first that is cut short
/// or does not match its checksum.
pub open spec fn recovered(s: Seq<u8>) -> Seq<Record>
    decreases s.len(),
{
    proof {
        lemma_parse_frame_shrinks(s);
    }
    match parse_frame(s) {
        Some((r, tail)) => seq![r] + recovered(tail),
        None => Seq::empty(),
    }
}

// ---- facts about the format ----------------------------------------------------

/// The rest of `s` after some bytes of it were read.
pub open spec fn is_tail(s: Seq<u8>, rest: Seq<u8>) -> bool {
    rest.len() <= s.len() && rest == s.skip(s.len() - rest.len())
}

proof fn lemma_tail_trans(s: Seq<u8>, t: Seq<u8>, u: Seq<u8>)
    requires
        is_tail(s, t),
        is_tail(t, u),
    ensures
        is_tail(s, u),
{
    assert(u =~= s.skip(s.len() - u.len()));
}

proof fn lemma_take_lp_be_tail(s: Seq<u8>)
    ensures
        take_lp_be(s) matches Some((b, rest)) ==> is_tail(s, rest),
{
    if let Some((b, rest)) = take_lp_be(s) {
        assert(rest =~= s.skip(s.len() - rest.len()));
    }
}

proof fn lemma_take_le_tail(s: Seq<u8>, w: nat)
    ensures
        take_le(s, w) matches Some((x, rest)) ==> is_tail(s, rest),
{
    if let Some((b, rest)) = take_le(s, w) {
        assert(rest =~= s.skip(s.len() - rest.len()));
    }
}

proof fn lemma_parse_payload_tail(s: Seq<u8>)
    ensures
        match parse_payload(s) {
            Some((r, rest)) => rest.len() < s.len() && is_tail(s, rest),
            None => true,
        },
{
    reveal(parse_payload);
    if parse_payload(s) is Some {
        let t = s.skip(1);
        assert(is_tail(s, t));
        lemma_take_lp_be_tail(t);
        let (k, r1) = take_lp_be(t)->0;
        lemma_tail_trans(s, t, r1);
        if s[0] == 3 {
            lemma_take_lp_be_tail(r1);
            let (to, r2) = take_lp_be(r1)->0;
            lemma_tail_trans(s, r1, r2);
            lemma_take_le_tail(r2, 8);
            lemma_tail_trans(s, r2, (take_le(r2, 8)->0).1);
        } else {
            lemma_take_le_tail(r1, 8);
            let (seq, r2) = take_le(r1, 8)->0;
            lemma_tail_trans(s, r1, r2);
            if s[0] == 0 {
                lemma_take_lp_be_tail(r2);
                lemma_tail_trans(s, r2, (take_lp_be(r2)->0).1);
            } else if s[0] == 2 {
                lemma_take_le_tail(r2, 8);
                let (e, r3) = take_le(r2, 8)->0;
                lemma_tail_trans(s, r2, r3);
                lemma_take_lp_be_tail(r3);
                lemma_tail_trans(s, r3, (take_lp_be(r3)->0).1);
            }
        }
    }
}

/// Reading a record uses up some of the log.
pub proof fn lemma_parse_frame_shrinks(s: Seq<u8>)
    ensures
        match parse_frame(s) {
            Some((r, tail)) => tail.len() < s.len(),
            None => true,
        },
{
    lemma_parse_payload_tail(s);
    if let Some((r, rest)) = parse_payload(s) {
        lemma_take_le_splits(rest, 4);
    }
}

/// A record that was read can be written.
pub proof fn lemma_parsed_fits(s: Seq<u8>)
    ensures
        parse_payload(s) matches Some((r, _)) ==> fits(r),
{
    reveal(parse_payload);
    if parse_payload(s) is Some {
        let t = s.skip(1);
        lemma_take_lp_be_splits(t);
        let (k, r1) = take_lp_be(t)->0;
        if s[0] == 3 {
            lemma_take_lp_be_splits(r1);
        } else {
            let (seq, r2) = take_le(r1, 8)->0;
            if s[0] == 0 {
                lemma_take_lp_be_splits(r2);
            } else if s[0] == 2 {
                let (e, r3) = take_le(r2, 8)->0;
                lemma_take_lp_be_splits(r3);
            }
        }
    }
}

/// Whatever recovery reads can be logged.
pub proof fn lemma_recovered_fits(s: Seq<u8>)
    ensures
        all_fit(recovered(s)),
    decreases s.len(),
{
    lemma_parse_frame_shrinks(s);
    if let Some((r, tail)) = parse_frame(s) {
        lemma_recovered_fits(tail);
        lemma_parsed_fits(s);
        let all = recovered(s);
        let rest = recovered(tail);
        assert forall|i: int| 0 <= i < all.len() implies fits(#[trigger] all[i]) by {
            if i > 0 {
                assert(all[i] == rest[i - 1]);
            }
        }
    }
}

/// A record that fits is read back as it was written.
pub proof fn lemma_payload_round_trip(r: Record, rest: Seq<u8>)
    requires
        fits(r),
    ensures
        parse_payload(payload(r) + rest) == Some((r, rest)),
{
    reveal(payload);
    reveal(parse_payload);
    lemma_pow256_values();
    let s = payload(r) + rest;
    match r {
        Record::Put { key, seq, value } => {
            let t3 = lp_be(value) + rest;
            let t2 = le_bytes(seq as nat, 8) + t3;
            assert(s.skip(1) =~= lp_be(key) + t2);
            lemma_take_lp_be(key, t2);
            lemma_take_le(seq as nat, 8, t3);
            lemma_take_lp_be(value, rest);
        },
        Record::Delete { key, seq } => {
            let t2 = le_bytes(seq as nat, 8) + rest;
            assert(s.skip(1) =~= lp_be(key) + t2);
            lemma_take_lp_be(key, t2);
            lemma_take_le(seq as nat, 8, rest);
        },
        Record::PutTtl { key, seq, value, expires_at } => {
            let t4 = lp_be(value) + rest;
            let t3 = le_bytes(expires_at as nat, 8) + t4;
            let t2 = le_bytes(seq as nat, 8) + t3;
            assert(s.skip(1) =~= lp_be(key) + t2);
            lemma_take_lp_be(key, t2);
            lemma_take_le(seq as nat, 8, t3);
            lemma_take_le(expires_at as nat, 8, t4);
            lemma_take_lp_be(value, rest);
        },
        Record::DeleteRange { from, to, seq } => {
            let t3 = le_bytes(seq as nat, 8) + rest;
            let t2 = lp_be(to) + t3;
            assert(s.skip(1) =~= lp_be(from) + t2);
            lemma_take_lp_be(from, t2);
            lemma_take_lp_be(to, t3);
            lemma_take_le(seq as nat, 8, rest);
        },
    }
}

/// A logged record that fits is read back as it was written.
pub proof fn lemma_frame_round_trip(r: Record, rest: Seq<u8>)
    requires
        fits(r),
    ensures
        parse_frame(frame(r) + rest) == Some((r, rest)),
{
    let crc = crc32(payload(r));
    let t = le_bytes(crc as nat, 4) + rest;
    let s = frame(r) + rest;
    assert(s =~= payload(r) + t);
    lemma_payload_round_trip(r, t);
    lemma_pow256_values();
    lemma_take_le(crc as nat, 4, rest);
    assert(s.take(s.len() - t.len()) =~= payload(r));
}

/// Recovery returns every record of an intact log, in the order in which they
/// were logged, and goes on with what follows them.
pub proof fn lemma_recover_log(rs: Seq<Record>, tail: Seq<u8>)
    requires
        all_fit(rs),
    ensures
        recovered(log_of(rs) + tail) == rs + recovered(tail),
    decreases rs.len(),
{
    if rs.len() == 0 {
        assert(log_of(rs) + tail =~= tail);
        assert(rs + recovered(tail) =~= recovered(tail));
    } else {
        let more = rs.drop_first();
        assert(log_of(rs) + tail =~= frame(rs[0]) + (log_of(more) + tail));
        lemma_frame_round_trip(rs[0], log_of(more) + tail);
        assert(fits(rs[0]));
        assert forall|i: int| 0 <= i < more.len() implies fits(#[trigger] more[i]) by {
            assert(more[i] == rs[i + 1]);
        }
        lemma_recover_log(more, tail);
        assert(seq![rs[0]] + (more + recovered(tail)) =~= rs + recovered(tail));
    }
}

/// A log that was closed cleanly gives back exactly what was logged.
pub proof fn law_recovery_returns_what_was_logged(rs: Seq<Record>)
    requires
        all_fit(rs),
    ensures
        recovered(log_of(rs)) == rs,
{
    lemma_recover_log(rs, Seq::empty());
    assert(log_of(rs) + Seq::<u8>::empty() =~= log_of(rs));
    lemma_nothing_in_nothing();
    assert(rs + Seq::<Record>::empty() =~= rs);
}

proof fn lemma_nothing_in_nothing()
    ensures
        recovered(Seq::<u8>::empty()) == Seq::<Record>::empty(),
{
    reveal(parse_payload);
}

/// Logging one more record puts its bytes at the end of the log.
pub proof fn lemma_log_push(rs: Seq<Record>, r: Record)
    ensures
        log_of(rs.push(r)) == log_of(rs) + frame(r),
    decreases rs.len(),
{
    if rs.len() == 0 {
        assert(rs.push(r).drop_first() =~= Seq::<Record>::empty());
        assert(log_of(rs.push(r)) == frame(r) + log_of(Seq::<Record>::empty()));
        assert(log_of(rs.push(r)) =~= log_of(rs) + frame(r));
    } else {
        lemma_log_push(rs.drop_first(), r);
        assert(rs.push(r).drop_first() =~= rs.drop_first().push(r));
        assert(rs.push(r)[0] == rs[0]);
        assert(frame(rs[0]) + (log_of(rs.drop_first()) + frame(r)) =~= log_of(rs) + frame(r));
    }
}

proof fn lemma_take_n_cut(s: Seq<u8>, n: nat, cut: nat)
    requires
        cut <= s.len(),
        take_n(s, n) is Some,
    ensures
        cut >= n ==> take_n(s.take(cut as int), n) == Some(
            (s.take(n as int), s.skip(n as int).take(cut - n)),
        ),
        cut < n ==> take_n(s.take(cut as int), n) is None,
{
    if cut >= n {
        assert(s.take(cut as int).take(n as int) =~= s.take(n as int));
        assert(s.take(cut as int).skip(n as int) =~= s.skip(n as int).take(cut - n));
    }
}

proof fn lemma_take_lp_be_cut(s: Seq<u8>, cut: nat)
    requires
        cut <= s.len(),
        take_lp_be(s) is Some,
    ensures
        ({
            let (b, rest) = take_lp_be(s)->0;
            let used = s.len() - rest.len();
            &&& cut >= used ==> take_lp_be(s.take(cut as int)) == Some((b, rest.take(cut - used)))
            &&& cut < used ==> take_lp_be(s.take(cut as int)) is None
        }),
{
    lemma_take_n_cut(s, 4, cut);
    let head = s.take(4);
    let r = s.skip(4);
    if cut >= 4 {
        lemma_take_n_cut(r, be_value(head), (cut - 4) as nat);
    }
}

proof fn lemma_take_le_cut(s: Seq<u8>, w: nat, cut: nat)
    requires
        cut <= s.len(),
        take_le(s, w) is Some,
    ensures
        ({
            let (x, rest) = take_le(s, w)->0;
            &&& cut >= w ==> take_le(s.take(cut as int), w) == Some((x, rest.take(cut - w)))
            &&& cut < w ==> take_le(s.take(cut as int), w) is None
        }),
{
    lemma_take_n_cut(s, w, cut);
}

/// A record that is cut short is not read as a record.
proof fn lemma_parse_payload_cut(s: Seq<u8>, cut: nat)
    requires
        cut <= s.len(),
        parse_payload(s) is Some,
        cut < s.len() - (parse_payload(s)->0).1.len(),
    ensures
        parse_payload(s.take(cut as int)) is None,
{
    reveal(parse_payload);
    if cut > 0 {
        let c = s.take(cut as int);
        let t = s.skip(1);
        let n1 = (cut - 1) as nat;
        assert(c.skip(1) =~= t.take(n1 as int));
        assert(c[0] == s[0]);
        lemma_take_lp_be_cut(t, n1);
        lemma_take_lp_be_splits(t);
        let (k, r1) = take_lp_be(t)->0;
        let used1 = t.len() - r1.len();
        if n1 >= used1 {
            let n2 = (n1 - used1) as nat;
            if s[0] == 3 {
                lemma_take_lp_be_cut(r1, n2);
                lemma_take_lp_be_splits(r1);
                let (to, r2) = take_lp_be(r1)->0;
                let used2 = r1.len() - r2.len();
                if n2 >= used2 {
                    lemma_take_le_cut(r2, 8, (n2 - used2) as nat);
                    lemma_take_le_splits(r2, 8);
                }
            } else {
                lemma_take_le_cut(r1, 8, n2);
                lemma_take_le_splits(r1, 8);
                let (seq, r2) = take_le(r1, 8)->0;
                if n2 >= 8 {
                    let n3 = (n2 - 8) as nat;
                    if s[0] == 0 {
                        lemma_take_lp_be_cut(r2, n3);
                        lemma_take_lp_be_splits(r2);
                    } else if s[0] == 2 {
                        lemma_take_le_cut(r2, 8, n3);
                        lemma_take_le_splits(r2, 8);
                        let (e, r3) = take_le(r2, 8)->0;
                        if n3 >= 8 {
                            lemma_take_lp_be_cut(r3, (n3 - 8) as nat);
                            lemma_take_lp_be_splits(r3);
                        }
                    }
                }
            }
        }
    }
}

/// A crash in the middle of a write costs that record and no other: recovery
/// of a log that ends in a part of a record returns all the records before it.
pub proof fn law_torn_write_loses_only_itself(rs: Seq<Record>, r: Record, cut: nat)
    requires
        all_fit(rs),
        fits(r),
        cut < frame(r).len(),
    ensures
        recovered(log_of(rs) + frame(r).take(cut as int)) == rs,
{
    let f = frame(r);
    let p = payload(r);
    let c = f.take(cut as int);
    let crc = le_bytes(crc32(p) as nat, 4);
    lemma_le_round_trip(crc32(p) as nat, 4);
    if cut < p.len() {
        assert(p + Seq::<u8>::empty() =~= p);
        lemma_payload_round_trip(r, Seq::empty());
        lemma_parse_payload_cut(p, cut);
        assert(c =~= p.take(cut as int));
    } else {
        let rest = crc.take(cut - p.len());
        assert(c =~= p + rest);
        lemma_payload_round_trip(r, rest);
    }
    assert(parse_frame(c) is None);
    lemma_recover_log(rs, c);
    assert(rs + Seq::<Record>::empty() =~= rs);
}

/// A record of which one byte was changed is noticed and stops recovery: what came before
/// it is returned, and nothing after it. Left out are changes after which the record says
/// that it is longer or shorter than it was, since then other bytes are compared.
pub proof fn law_changed_byte_stops_recovery(
    rs: Seq<Record>,
    r: Record,
    i: int,
    x: u8,
    rest: Seq<u8>,
)
    requires
        all_fit(rs),
        fits(r),
        0 <= i < frame(r).len(),
        x != frame(r)[i],
        i < payload(r).len() ==> (parse_payload(payload(r).update(i, x) + frame(r).skip(
            payload(r).len() as int,
        ) + rest) matches Some((_, t)) ==> t.len() == 4 + rest.len()),
    ensures
        recovered(log_of(rs) + frame(r).update(i, x) + rest) == rs,
{
    let p = payload(r);
    let f = frame(r);
    let n = p.len() as int;
    let crc = crc32(p);
    let bad = f.update(i, x);
    let s = bad + rest;
    lemma_le_round_trip(crc as nat, 4);
    lemma_pow256_values();
    assert(f =~= p + le_bytes(crc as nat, 4));
    assert(f.skip(n) =~= le_bytes(crc as nat, 4));
    assert(parse_frame(s) is None) by {
        if i < n {
            let q = p.update(i, x);
            assert(s =~= q + f.skip(n) + rest);
            if let Some((y, left)) = parse_payload(s) {
                lemma_parse_payload_tail(s);
                assert(left =~= f.skip(n) + rest);
                lemma_take_le(crc as nat, 4, rest);
                assert(s.take(s.len() - left.len()) =~= q);
                law_changed_byte_changes_checksum(p, i, x);
            }
        } else {
            let c = le_bytes(crc as nat, 4).update(i - n, x);
            assert(s =~= p + (c + rest));
            lemma_payload_round_trip(r, c + rest);
            lemma_take_n(c, rest);
            assert(s.take(s.len() - (c + rest).len()) =~= p);
            if le_value(c) == crc {
                lemma_le_value_round_trip(c);
                assert(c[i - n] == le_bytes(crc as nat, 4)[i - n]);
            }
        }
    }
    lemma_recover_log(rs, s);
    assert(log_of(rs) + bad + rest =~= log_of(rs) + s);
    assert(rs + recovered(s) =~= rs);
}

/// A record whose checksum does not match stops recovery: what came before it
/// is returned, and nothing of what follows.
pub proof fn law_corrupt_record_stops_recovery(
    rs: Seq<Record>,
    r: Record,
    crc: u32,
    after: Seq<u8>,
)
    requires
        all_fit(rs),
        fits(r),
        crc != crc32(payload(r)),
    ensures
        recovered(log_of(rs) + (sealed(payload(r), crc) + after)) == rs,
{
    let t = le_bytes(crc as nat, 4) + after;
    let s = sealed(payload(r), crc) + after;
    assert(s =~= payload(r) + t);
    lemma_payload_round_trip(r, t);
    lemma_pow256_values();
    lemma_take_le(crc as nat, 4, after);
    assert(s.take(s.len() - t.len()) =~= payload(r));
    assert(parse_frame(s) is None);
    lemma_recover_log(rs, s);
    assert(rs + Seq::<Record>::empty() =~= rs);
}

// ---- encoding ------------------------------------------------------------------

/// The bytes of `rec` without its checksum.
pub fn encode_payload(rec: &WalRecord) -> (p: Vec<u8>)
    ensures
        p@ == payload(rec@),
{
    let mut p: Vec<u8> = Vec::new();
    proof {
        reveal(payload);
    }
    match rec {
        WalRecord::Put { key, seq, value } => {
            p.push(0);
            put_lp_be(&mut p, key.as_slice());
            put_le(&mut p, *seq, 8);
            put_lp_be(&mut p, value.as_slice());
        },
        WalRecord::Delete { key, seq } => {
            p.push(1);
            put_lp_be(&mut p, key.as_slice());
            put_le(&mut p, *seq, 8);
        },
        WalRecord::PutTtl { key, seq, value, expires_at } => {
            p.push(2);
            put_lp_be(&mut p, key.as_slice());
            put_le(&mut p, *seq, 8);
            put_le(&mut p, *expires_at, 8);
            put_lp_be(&mut p, value.as_slice());
        },
        WalRecord::DeleteRange { from, to, seq } => {
            p.push(3);
            put_lp_be(&mut p, from.as_slice());
            put_lp_be(&mut p, to.as_slice());
            put_le(&mut p, *seq, 8);
        },
    }
    assert(p@ =~= payload(rec@));
    p
}

/// Put a checksum behind a payload.
pub fn seal(payload: Vec<u8>, crc: u32) -> (f: Vec<u8>)
    ensures
        f@ == sealed(payload@, crc),
{
    let mut f: Vec<u8> = payload;
    put_le(&mut f, crc as u64, 4);
    f
}

/// The bytes of `rec` in the log.
pub fn encode_record(rec: &WalRecord) -> (f: Vec<u8>)
    ensures
        f@ == frame(rec@),
{
    let p: Vec<u8> = encode_payload(rec);
    let crc: u32 = crc32fast::hash(p.as_slice());
    seal(p, crc)
}

// ---- decoding ------------------------------------------------------------------

/// Read the record at `pos`, without its checksum.
pub fn read_payload(data: &[u8], pos: usize) -> (r: Option<(WalRecord, usize)>)
    requires
        pos <= data@.len(),
    ensures
        match r {
            Some((rec, end)) => {
                &&& pos < end <= data@.len()
                &&& parse_payload(data@.skip(pos as int)) == Some((rec@, data@.skip(end as int)))
            },
            None => parse_payload(data@.skip(pos as int)) is None,
        },
{
    proof {
        reveal(parse_payload);
    }
    if pos == data.len() {
        return None;
    }
    let tag: u8 = data[pos];
    assert(data@.skip(pos as int)[0] == tag);
    assert(data@.skip(pos as int).skip(1) =~= data@.skip(pos + 1));
    let (first, p1): (Vec<u8>, usize) = match read_lp_be(data, pos + 1) {
        Some(x) => x,
        None => {
            return None;
        },
    };
    if tag == 3 {
        let (to, p2): (Vec<u8>, usize) = match read_lp_be(data, p1) {
            Some(x) => x,
            None => {
                return None;
            },
        };
        let (seq, p3): (u64, usize) = match read_le(data, p2, 8) {
            Some(x) => x,
            None => {
                return None;
            },
        };
        return Some((WalRecord::DeleteRange { from: first, to, seq }, p3));
    }
    let (seq, p2): (u64, usize) = match read_le(data, p1, 8) {
        Some(x) => x,
        None => {
            return None;
        },
    };
    if tag == 0 {
        match read_lp_be(data, p2) {
            Some((value, p3)) => Some((WalRecord::Put { key: first, seq, value }, p3)),
            None => None,
        }
    } else if tag == 2 {
        let (expires_at, p3): (u64, usize) = match read_le(data, p2, 8) {
            Some(x) => x,
            None => {
                return None;
            },
        };
        match read_lp_be(data, p3) {
            Some((value, p4)) => Some((WalRecord::PutTtl { key: first, seq, value, expires_at }, p4)),
            None => None,
        }
    } else {
        Some((WalRecord::Delete { key: first, seq }, p2))
    }
}

/// Compare the checksum stored at `at` with the one computed from the payload.
/// Returns the position behind it if they are the same.
pub fn accept_checksum(data: &[u8], at: usize, computed: u32) -> (r: Option<usize>)
    requires
        at <= data@.len(),
    ensures
        match take_le(data@.skip(at as int), 4) {
            Some((stored, tail)) => if stored == computed {
                r matches Some(end) && end == at + 4 && end <= data@.len() && tail == data@.skip(
                    end as int,
                )
            } else {
                r is None
            },
            None => r is None,
        },
{
    match read_le(data, at, 4) {
        Some((stored, end)) => {
            proof {
                lemma_take_le_splits(data@.skip(at as int), 4);
                lemma_le_round_trip(stored as nat, 4);
                assert(data@.skip(at as int).len() == 4 + data@.skip(end as int).len());
            }
            if stored == computed as u64 {
                Some(end)
            } else {
                None
            }
        },
        None => None,
    }
}

/// Read the record at `pos` with its checksum.
pub fn read_frame(data: &[u8], pos: usize) -> (r: Option<(WalRecord, usize)>)
    requires
        pos <= data@.len(),
    ensures
        match r {
            Some((rec, end)) => {
                &&& pos < end <= data@.len()
                &&& parse_frame(data@.skip(pos as int)) == Some((rec@, data@.skip(end as int)))
            },
            None => parse_frame(data@.skip(pos as int)) is None,
        },
{
    let (rec, at): (WalRecord, usize) = match read_payload(data, pos) {
        Some(x) => x,
        None => {
            return None;
        },
    };
    let computed: u32 = crc32fast::hash(slice_subrange(data, pos, at));
    proof {
        let s = data@.skip(pos as int);
        assert(s.take(s.len() - data@.skip(at as int).len()) =~= data@.subrange(
            pos as int,
            at as int,
        ));
    }
    match accept_checksum(data, at, computed) {
        Some(end) => Some((rec, end)),
        None => None,
    }
}

/// The records that recovery reads, each with the bytes that it was read from.
pub open spec fn recovered_raw(s: Seq<u8>) -> Seq<(Record, Seq<u8>)>
    decreases s.len(),
{
    proof {
        lemma_parse_frame_shrinks(s);
    }
    match parse_frame(s) {
        Some((r, tail)) => seq![(r, s.take(s.len() - tail.len()))] + recovered_raw(tail),
        None => Seq::empty(),
    }
}

/// Pairs of a record and its bytes, as mathematical values.
pub open spec fn raw_records(v: Seq<(WalRecord, Vec<u8>)>) -> Seq<(Record, Seq<u8>)> {
    v.map_values(|p: (WalRecord, Vec<u8>)| (p.0@, p.1@))
}

impl WalRecord {
    /// The sequence number of the record.
    pub fn seq(&self) -> (r: u64)
        ensures
            r == self@.seq(),
    {
        match self {
            WalRecord::Put { seq, .. } => *seq,
            WalRecord::Delete { seq, .. } => *seq,
            WalRecord::PutTtl { seq, .. } => *seq,
            WalRecord::DeleteRange { seq, .. } => *seq,
        }
    }

    /// Whether `frame` holds all the bytes of a record.
    pub fn is_complete_frame(frame: &[u8]) -> (r: bool)
        ensures
            r == (parse_payload(frame@) is Some),
    {
        assert(frame@.skip(0) =~= frame@);
        read_payload(frame, 0).is_some()
    }

    /// Decode one record from the bytes of a frame. The checksum is not looked
    /// at, and neither is anything else behind the record.
    pub fn decode_frame(frame: &[u8]) -> (r: Result<WalRecord, EngineError>)
        requires
            frame@.len() > 0 ==> parse_payload(frame@) is Some,
        ensures
            frame@.len() == 0 ==> r == Err::<WalRecord, EngineError>(EngineError::UnexpectedEof),
            frame@.len() > 0 ==> (r matches Ok(rec) && rec@ == (parse_payload(frame@)->0).0),
    {
        if frame.len() == 0 {
            return Err(EngineError::UnexpectedEof);
        }
        assert(frame@.skip(0) =~= frame@);
        match read_payload(frame, 0) {
            Some((rec, _)) => Ok(rec),
            None => Err(EngineError::UnexpectedEof),
        }
    }

    /// Read records from the front of `data`. Returns each with the bytes that
    /// it takes up in the log, which is what a replication follower is sent.
    pub fn recover_from_reader_with_raw(data: &[u8]) -> (out: Vec<(WalRecord, Vec<u8>)>)
        ensures
            raw_records(out@) == recovered_raw(data@),
    {
        let mut out: Vec<(WalRecord, Vec<u8>)> = Vec::new();
        let mut pos: usize = 0;
        assert(data@.skip(0) =~= data@);
        assert(raw_records(out@) + recovered_raw(data@) =~= recovered_raw(data@));
        loop
            invariant
                pos <= data@.len(),
                recovered_raw(data@) == raw_records(out@) + recovered_raw(data@.skip(pos as int)),
            ensures
                raw_records(out@) == recovered_raw(data@),
            decreases data@.len() - pos,
        {
            match read_frame(data, pos) {
                Some((rec, end)) => {
                    let ghost before = raw_records(out@);
                    let raw: Vec<u8> = slice_to_vec(slice_subrange(data, pos, end));
                    let ghost rest = recovered_raw(data@.skip(end as int));
                    proof {
                        let s = data@.skip(pos as int);
                        assert(s.take(s.len() - data@.skip(end as int).len()) =~= raw@);
                        assert(before + (seq![(rec@, raw@)] + rest) =~= before.push((rec@, raw@))
                            + rest);
                    }
                    let ghost old_out = out@;
                    let ghost pair = (rec@, raw@);
                    out.push((rec, raw));
                    assert(raw_records(out@) =~= before.push(pair));
                    pos = end;
                },
                None => {
                    assert(raw_records(out@) + Seq::<(Record, Seq<u8>)>::empty() =~= raw_records(
                        out@,
                    ));
                    break;
                },
            }
        }
        out
    }
}

// ---- the log -------------------------------------------------------------------

/// A write-ahead log: the bytes of its file.
pub struct Wal {
    log: Vec<u8>,
}

impl View for Wal {
    type V = Seq<u8>;

    closed spec fn view(&self) -> Seq<u8> {
        self.log@
    }
}

impl Wal {
    /// Continue the log whose file holds `log`.
    pub fn open(log: Vec<u8>) -> (r: Wal)
        ensures
            r@ == log@,
    {
        Wal { log }
    }

    /// The bytes of the log.
    pub fn bytes(&self) -> (r: &Vec<u8>)
        ensures
            r@ == self@,
    {
        &self.log
    }

    /// Log one record. Returns the bytes that go to the end of the file.
    pub fn append(&mut self, rec: &WalRecord) -> (f: Vec<u8>)
        ensures
            f@ == frame(rec@),
            final(self)@ == old(self)@ + f@,
    {
        let f: Vec<u8> = encode_record(rec);
        put_bytes(&mut self.log, f.as_slice());
        f
    }

    /// Log a put.
    pub fn append_put(&mut self, key: Vec<u8>, seq: u64, value: Vec<u8>) -> (f: Vec<u8>)
        ensures
            f@ == frame((Record::Put { key: key@, seq, value: value@ })),
            final(self)@ == old(self)@ + f@,
    {
        self.append(&WalRecord::Put { key, seq, value })
    }

    /// Log a delete.
    pub fn append_delete(&mut self, key: Vec<u8>, seq: u64) -> (f: Vec<u8>)
        ensures
            f@ == frame((Record::Delete { key: key@, seq })),
            final(self)@ == old(self)@ + f@,
    {
        self.append(&WalRecord::Delete { key, seq })
    }

    /// Log a put that expires at `expires_at`.
    pub fn append_put_ttl(
        &mut self,
        key: Vec<u8>,
        seq: u64,
        value: Vec<u8>,
        expires_at: u64,
    ) -> (f: Vec<u8>)
        ensures
            f@ == frame((Record::PutTtl { key: key@, seq, value: value@, expires_at })),
            final(self)@ == old(self)@ + f@,
    {
        self.append(&WalRecord::PutTtl { key, seq, value, expires_at })
    }

    /// Log the deletion of the keys from `from` up to, not including, `to`.
    pub fn append_delete_range(&mut self, from: Vec<u8>, to: Vec<u8>, seq: u64) -> (f: Vec<u8>)
        ensures
            f@ == frame((Record::DeleteRange { from: from@, to: to@, seq })),
            final(self)@ == old(self)@ + f@,
    {
        self.append(&WalRecord::DeleteRange { from, to, seq })
    }

    /// Read back the records of a log file. An absent file is an empty one.
    pub fn recover(data: &[u8]) -> (out: Vec<WalRecord>)
        ensures
            records(out@) == recovered(data@),
    {
        let mut out: Vec<WalRecord> = Vec::new();
        let mut pos: usize = 0;
        assert(data@.skip(0) =~= data@);
        assert(records(out@) + recovered(data@) =~= recovered(data@));
        loop
            invariant
                pos <= data@.len(),
                recovered(data@) == records(out@) + recovered(data@.skip(pos as int)),
            ensures
                records(out@) == recovered(data@),
            decreases data@.len() - pos,
        {
            match read_frame(data, pos) {
                Some((rec, end)) => {
                    let ghost before = records(out@);
                    let ghost r = rec@;
                    let ghost rest = recovered(data@.skip(end as int));
                    assert(before + (seq![r] + rest) =~= before.push(r) + rest);
                    out.push(rec);
                    assert(records(out@) =~= before.push(r));
                    pos = end;
                },
                None => {
                    assert(records(out@) + Seq::<Record>::empty() =~= records(out@));
                    break;
                },
            }
        }
        out
    }
}

// ---- the bytes of records --------------------------------------------------------

/// The bytes of a put: the tag 0, the key behind its length, the number, and the value
/// behind its length; those of a put with an expiry: the tag 2, and the expiry before the
/// value.
pub proof fn law_bytes_of_puts(key: Seq<u8>, seq: u64, value: Seq<u8>, expires_at: u64)
    ensures
        payload(Record::Put { key, seq, value }) == seq![0u8] + be_bytes(key.len(), 4) + key
            + le_bytes(seq as nat, 8) + be_bytes(value.len(), 4) + value,
        payload(Record::PutTtl { key, seq, value, expires_at }) == seq![2u8] + be_bytes(
            key.len(),
            4,
        ) + key + le_bytes(seq as nat, 8) + le_bytes(expires_at as nat, 8) + be_bytes(
            value.len(),
            4,
        ) + value,
{
    reveal(payload);
    assert(payload(Record::Put { key, seq, value }) =~= seq![0u8] + be_bytes(key.len(), 4) + key
        + le_bytes(seq as nat, 8) + be_bytes(value.len(), 4) + value);
    assert(payload(Record::PutTtl { key, seq, value, expires_at }) =~= seq![2u8] + be_bytes(
        key.len(),
        4,
    ) + key + le_bytes(seq as nat, 8) + le_bytes(expires_at as nat, 8) + be_bytes(value.len(), 4)
        + value);
}

/// The bytes of a deletion: the tag 1, the key behind its length, and the number; those of a
/// deletion of a range: the tag 3, the two bounds behind their lengths, and the number.
pub proof fn law_bytes_of_deletions(key: Seq<u8>, to: Seq<u8>, seq: u64)
    ensures
        payload(Record::Delete { key, seq }) == seq![1u8] + be_bytes(key.len(), 4) + key + le_bytes(
            seq as nat,
            8,
        ),
        payload(Record::DeleteRange { from: key, to, seq }) == seq![3u8] + be_bytes(key.len(), 4)
            + key + be_bytes(to.len(), 4) + to + le_bytes(seq as nat, 8),
{
    reveal(payload);
    assert(payload(Record::Delete { key, seq }) =~= seq![1u8] + be_bytes(key.len(), 4) + key
        + le_bytes(seq as nat, 8));
    assert(payload(Record::DeleteRange { from: key, to, seq }) =~= seq![3u8] + be_bytes(
        key.len(),
        4,
    ) + key + be_bytes(to.len(), 4) + to + le_bytes(seq as nat, 8));
}

/// In the log a record is followed by the checksum of its bytes, and records follow each
/// other.
pub proof fn law_bytes_of_a_log(rs: Seq<Record>, r: Record)
    ensures
        frame(r) == payload(r) + le_bytes(crc32(payload(r)) as nat, 4),
        log_of(Seq::empty()) == Seq::<u8>::empty(),
        log_of(rs.push(r)) == log_of(rs) + payload(r) + le_bytes(crc32(payload(r)) as nat, 4),
{
    lemma_log_push(rs, r);
    assert(log_of(rs) + frame(r) =~= log_of(rs) + payload(r) + le_bytes(
        crc32(payload(r)) as nat,
        4,
    ));
}

/// Whatever has keys and values of less than four gigabytes can be logged.
pub proof fn law_what_can_be_logged(
    key: Seq<u8>,
    other: Seq<u8>,
    seq: u64,
    expires_at: u64,
)
    requires
        key.len() < 0x1_0000_0000,
        other.len() < 0x1_0000_0000,
    ensures
        fits(Record::Put { key, seq, value: other }),
        fits(Record::PutTtl { key, seq, value: other, expires_at }),
        fits(Record::Delete { key, seq }),
        fits(Record::DeleteRange { from: key, to: other, seq }),
{
}

/// The number of a record is the one that it was made with.
pub proof fn law_number_of_a_record(key: Seq<u8>, other: Seq<u8>, seq: u64, expires_at: u64)
    ensures
        (Record::Put { key, seq, value: other }).seq() == seq,
        (Record::PutTtl { key, seq, value: other, expires_at }).seq() == seq,
        (Record::Delete { key, seq }).seq() == seq,
        (Record::DeleteRange { from: key, to: other, seq }).seq() == seq,
{
}

/// Records are recovered with the bytes that they stand in: those bytes are the front of
/// the log, and the others are recovered from what follows them.
pub proof fn law_records_come_with_their_bytes(s: Seq<u8>)
    ensures
        recovered_raw(s).len() == recovered(s).len(),
        recovered(s).len() > 0 ==> ({
            let (r, bytes) = recovered_raw(s)[0];
            &&& r == recovered(s)[0]
            &&& 0 < bytes.len() <= s.len()
            &&& bytes == s.take(bytes.len() as int)
            &&& recovered_raw(s) == seq![(r, bytes)] + recovered_raw(s.skip(bytes.len() as int))
            &&& recovered(s) == seq![r] + recovered(s.skip(bytes.len() as int))
        }),
    decreases s.len(),
{
    lemma_parse_frame_shrinks(s);
    if let Some((r, tail)) = parse_frame(s) {
        law_records_come_with_their_bytes(tail);
        let n = s.len() - tail.len();
        lemma_parse_payload_tail(s);
        let (x, rest) = parse_payload(s)->0;
        lemma_take_le_tail(rest, 4);
        lemma_tail_trans(s, rest, tail);
        assert(s.skip(n) == tail);
        assert(recovered_raw(s)[0] == (r, s.take(n)));
    }
}

} // verus!
