//! Sending the records of a log to followers, and applying them there.
//!
//! On the wire each record is its bytes in the log, with their length as four bytes in
//! front, the most significant first. A follower writes the records to its own engine,
//! under its own sequence numbers.

use crate::bytes::{be_bytes, le_bytes};
use crate::codec::{lp_be, put_lp_be};
use crate::crc::crc32;
use crate::engine::LsmEngine;
use crate::engine::read::seen;
use crate::engine::write::wrote;
use crate::error::EngineError;
use crate::layers::Layer;
use crate::recovery::written;
use crate::stored::later;
use crate::wal::{all_fit, fits, frame, law_recovery_returns_what_was_logged, lemma_frame_round_trip,
    lemma_parse_frame_shrinks, lemma_parsed_fits, lemma_payload_round_trip, log_of, parse_frame,
    parse_payload, payload, raw_records, read_frame, recovered_raw, Record, WalRecord};
use vstd::prelude::*;
use vstd::slice::slice_subrange;

verus! {

// ---- leader --------------------------------------------------------------------

/// The log of one column family that is sent to followers, and where they connect.
pub struct ReplicationServer {
    pub bind_addr: String,
    pub wal_path: String,
    pub cf: String,
}

impl ReplicationServer {
    /// A server for the log at `wal_path`.
    pub fn new(bind_addr: &str, wal_path: &str, cf: &str) -> (r: ReplicationServer)
        ensures
            r.bind_addr@ == bind_addr@,
            r.wal_path@ == wal_path@,
            r.cf@ == cf@,
    {
        ReplicationServer {
            bind_addr: bind_addr.to_owned(),
            wal_path: wal_path.to_owned(),
            cf: cf.to_owned(),
        }
    }
}

/// The records of a log from an offset on, each with its bytes; none if the log is
/// shorter than that.
pub open spec fn tail_of(log: Seq<u8>, from: nat) -> Seq<(Record, Seq<u8>)> {
    if from <= log.len() {
        recovered_raw(log.skip(from as int))
    } else {
        Seq::empty()
    }
}

/// What is sent of records.
pub open spec fn wire_of(rs: Seq<(Record, Seq<u8>)>) -> Seq<u8>
    decreases rs.len(),
{
    if rs.len() == 0 {
        Seq::empty()
    } else {
        wire_of(rs.drop_last()) + lp_be(rs.last().1)
    }
}

/// How many bytes of the log records take up.
pub open spec fn raw_len(rs: Seq<(Record, Seq<u8>)>) -> nat
    decreases rs.len(),
{
    if rs.len() == 0 {
        0
    } else {
        raw_len(rs.drop_last()) + rs.last().1.len()
    }
}

/// The records of a log from the offset `from` on, each with its bytes.
pub fn read_wal_tail(log: &[u8], from: u64) -> (r: Vec<(WalRecord, Vec<u8>)>)
    ensures
        raw_records(r@) == tail_of(log@, from as nat),
{
    if from > log.len() as u64 {
        let r: Vec<(WalRecord, Vec<u8>)> = Vec::new();
        assert(raw_records(r@) =~= Seq::<(Record, Seq<u8>)>::empty());
        return r;
    }
    let start: usize = from as usize;
    let rest: &[u8] = slice_subrange(log, start, log.len());
    assert(rest@ =~= log@.skip(from as int));
    WalRecord::recover_from_reader_with_raw(rest)
}

/// How far a follower is: how many bytes of the log it has had, and the largest sequence
/// number of the records that it has had.
#[derive(Clone, Copy, Debug, PartialEq, Eq, Structural)]
pub struct Position {
    pub sent: u64,
    pub newest: u64,
}

impl Position {
    /// A follower that has had nothing.
    pub fn start() -> (r: Position)
        ensures
            r == (Position { sent: 0, newest: 0 }),
    {
        Position { sent: 0, newest: 0 }
    }
}

/// Where in a log a follower goes on. A log that begins with a record that it has not
/// had was emptied since, and is sent from its start, as is one that is shorter than
/// what it has had.
pub open spec fn resume_at(log: Seq<u8>, at: Position) -> nat {
    match parse_frame(log) {
        Some((r, _)) => if r.seq() <= at.newest && at.sent <= log.len() {
            at.sent as nat
        } else {
            0
        },
        None => 0,
    }
}

/// The largest of a number and the sequence numbers of records.
pub open spec fn newest_with(rs: Seq<(Record, Seq<u8>)>, newest: u64) -> u64
    decreases rs.len(),
{
    if rs.len() == 0 {
        newest
    } else {
        later(newest_with(rs.drop_last(), newest), rs.last().0.seq())
    }
}

/// What is to be sent to a follower that is at a position in the log, and where it is
/// then. A flush empties the log. Every record that is logged after that is newer than
/// those before, so that the first record tells.
pub fn next_frames(log: &[u8], at: Position) -> (r: (Vec<u8>, Position))
    ensures
        ({
            let from = resume_at(log@, at);
            let tail = tail_of(log@, from);
            &&& r.0@ == wire_of(tail)
            &&& r.1.sent == from + raw_len(tail)
            &&& r.1.newest == newest_with(tail, at.newest)
            &&& r.1.sent <= log@.len()
        }),
{
    assert(log@.skip(0) =~= log@);
    let from: u64 = match read_frame(log, 0) {
        Some((rec, _)) => if rec.seq() <= at.newest && at.sent <= log.len() as u64 {
            at.sent
        } else {
            0
        },
        None => 0,
    };
    let tail: Vec<(WalRecord, Vec<u8>)> = read_wal_tail(log, from);
    let ghost rs = raw_records(tail@);
    proof {
        lemma_raw_len(log@.skip(from as int));
    }
    let total: usize = log.len();
    let mut wire: Vec<u8> = Vec::new();
    let mut sent: u64 = from;
    let mut newest: u64 = at.newest;
    let mut i: usize = 0;
    assert(rs.take(0) =~= Seq::<(Record, Seq<u8>)>::empty());
    assert(wire@ =~= Seq::<u8>::empty());
    while i < tail.len()
        invariant
            i <= tail@.len(),
            rs == raw_records(tail@),
            from + raw_len(rs) <= total,
            wire@ == wire_of(rs.take(i as int)),
            sent == from + raw_len(rs.take(i as int)),
            newest == newest_with(rs.take(i as int), at.newest),
        decreases tail@.len() - i,
    {
        proof {
            let t = rs.take(i + 1);
            assert(t.drop_last() =~= rs.take(i as int));
            assert(t.last() == rs[i as int]);
            assert(rs[i as int] == (tail@[i as int].0@, tail@[i as int].1@));
            lemma_raw_len_take(rs, i + 1);
        }
        put_lp_be(&mut wire, tail[i].1.as_slice());
        sent = sent + tail[i].1.len() as u64;
        let seq: u64 = tail[i].0.seq();
        if seq > newest {
            newest = seq;
        }
        i = i + 1;
    }
    assert(rs.take(i as int) =~= rs);
    (wire, Position { sent, newest })
}

proof fn lemma_raw_len_take(rs: Seq<(Record, Seq<u8>)>, n: int)
    requires
        0 <= n <= rs.len(),
    ensures
        raw_len(rs.take(n)) <= raw_len(rs),
    decreases rs.len(),
{
    if n == rs.len() {
        assert(rs.take(n) =~= rs);
    } else {
        lemma_raw_len_take(rs.drop_last(), n);
        assert(rs.drop_last().take(n) =~= rs.take(n));
    }
}

proof fn lemma_raw_len_cons(x: (Record, Seq<u8>), rs: Seq<(Record, Seq<u8>)>)
    ensures
        raw_len(seq![x] + rs) == x.1.len() + raw_len(rs),
    decreases rs.len(),
{
    let all = seq![x] + rs;
    if rs.len() == 0 {
        assert(all =~= seq![x]);
        assert(all.drop_last() =~= Seq::<(Record, Seq<u8>)>::empty());
        assert(raw_len(all.drop_last()) == 0);
        assert(raw_len(rs) == 0);
    } else {
        lemma_raw_len_cons(x, rs.drop_last());
        assert(all.drop_last() =~= seq![x] + rs.drop_last());
        assert(all.last() == rs.last());
    }
}

proof fn lemma_raw_len(s: Seq<u8>)
    ensures
        raw_len(recovered_raw(s)) <= s.len(),
    decreases s.len(),
{
    lemma_parse_frame_shrinks(s);
    if let Some((r, tail)) = parse_frame(s) {
        lemma_raw_len(tail);
        lemma_raw_len_cons((r, s.take(s.len() - tail.len())), recovered_raw(tail));
    }
}

// ---- follower ------------------------------------------------------------------

/// A record under another sequence number.
pub open spec fn renumbered(r: Record, seq: u64) -> Record {
    match r {
        Record::Put { key, value, .. } => Record::Put { key, seq, value },
        Record::Delete { key, .. } => Record::Delete { key, seq },
        Record::PutTtl { key, value, expires_at, .. } => Record::PutTtl {
            key,
            seq,
            value,
            expires_at,
        },
        Record::DeleteRange { from, to, .. } => Record::DeleteRange { from, to, seq },
    }
}

/// Write a record of the leader to a column family of the follower.
pub fn apply_record(db: &mut LsmEngine, cf: &str, record: WalRecord) -> (r: Result<(), EngineError>)
    requires
        old(db).wf(),
        old(db).has_room(),
        fits(record@),
    ensures
        match r {
            Ok(_) => old(db).has_cf(cf@) && wrote(
                old(db),
                final(db),
                cf@,
                renumbered(record@, old(db).next_seq()),
            ),
            Err(e) => e == EngineError::NotFound && !old(db).has_cf(cf@) && *final(db)
                == *old(db),
        },
{
    match record {
        WalRecord::Put { key, seq: _, value } => db.put_cf(cf, key, value),
        WalRecord::Delete { key, seq: _ } => db.delete_cf(cf, key),
        WalRecord::PutTtl { key, seq: _, value, expires_at } => db.put_until_cf(
            cf,
            key,
            value,
            expires_at,
        ),
        WalRecord::DeleteRange { from, to, seq: _ } => db.delete_range_cf(cf, from, to),
    }
}

/// Write the record of a frame to a column family of the follower.
pub fn apply_frame(db: &mut LsmEngine, cf: &str, data: &[u8]) -> (r: Result<(), EngineError>)
    requires
        old(db).wf(),
        old(db).has_room(),
        data@.len() > 0 ==> parse_payload(data@) is Some,
    ensures
        match r {
            Ok(_) => {
                &&& data@.len() > 0
                &&& old(db).has_cf(cf@)
                &&& wrote(
                    old(db),
                    final(db),
                    cf@,
                    renumbered((parse_payload(data@)->0).0, old(db).next_seq()),
                )
            },
            Err(e) => {
                &&& e == (if data@.len() == 0 {
                    EngineError::UnexpectedEof
                } else {
                    EngineError::NotFound
                })
                &&& data@.len() > 0 ==> !old(db).has_cf(cf@)
                &&& *final(db) == *old(db)
            },
        },
{
    match WalRecord::decode_frame(data) {
        Ok(record) => {
            proof {
                lemma_parsed_fits(data@);
            }
            apply_record(db, cf, record)
        },
        Err(e) => Err(e),
    }
}

/// How long a follower waits before it connects for the first time, in milliseconds.
pub const FIRST_BACKOFF_MS: u64 = 200;

/// How long a follower waits at most, in milliseconds.
pub const MAX_BACKOFF_MS: u64 = 30_000;

/// How long a follower waits that could not connect after it had waited so long: twice
/// as long, up to a limit.
pub fn next_backoff_ms(waited: u64) -> (r: u64)
    ensures
        r == (if 2 * waited < MAX_BACKOFF_MS {
            2 * waited
        } else {
            MAX_BACKOFF_MS as int
        }),
{
    if waited < MAX_BACKOFF_MS / 2 {
        2 * waited
    } else {
        MAX_BACKOFF_MS
    }
}

// ---- laws ----------------------------------------------------------------------

/// Records with their bytes in the log.
pub open spec fn with_frames(rs: Seq<Record>) -> Seq<(Record, Seq<u8>)> {
    rs.map_values(|r: Record| (r, frame(r)))
}

proof fn lemma_raw_of_log(rs: Seq<Record>)
    requires
        all_fit(rs),
    ensures
        recovered_raw(log_of(rs)) == with_frames(rs),
    decreases rs.len(),
{
    if rs.len() == 0 {
        law_recovery_returns_what_was_logged(rs);
        assert(with_frames(rs) =~= Seq::<(Record, Seq<u8>)>::empty());
        assert(recovered_raw(log_of(rs)) =~= Seq::<(Record, Seq<u8>)>::empty());
    } else {
        let more = rs.drop_first();
        let rest = log_of(more);
        assert(fits(rs[0]));
        assert forall|i: int| 0 <= i < more.len() implies fits(#[trigger] more[i]) by {
            assert(more[i] == rs[i + 1]);
        }
        lemma_raw_of_log(more);
        lemma_frame_round_trip(rs[0], rest);
        let s = log_of(rs);
        assert(s == frame(rs[0]) + rest);
        assert(s.take(s.len() - rest.len()) =~= frame(rs[0]));
        assert(seq![(rs[0], frame(rs[0]))] + with_frames(more) =~= with_frames(rs));
    }
}

proof fn lemma_log_concat(a: Seq<Record>, b: Seq<Record>)
    ensures
        log_of(a + b) == log_of(a) + log_of(b),
    decreases a.len(),
{
    if a.len() == 0 {
        assert(a + b =~= b);
        assert(log_of(a) + log_of(b) =~= log_of(b));
    } else {
        lemma_log_concat(a.drop_first(), b);
        assert((a + b).drop_first() =~= a.drop_first() + b);
        assert((a + b)[0] == a[0]);
        assert(log_of(a + b) =~= log_of(a) + log_of(b));
    }
}

/// A follower that has had the records of a log is sent those that were logged since,
/// each in the bytes that it was logged in.
pub proof fn law_tail_is_what_was_logged_since(had: Seq<Record>, more: Seq<Record>)
    requires
        all_fit(more),
    ensures
        tail_of(log_of(had + more), log_of(had).len()) == with_frames(more),
{
    lemma_log_concat(had, more);
    lemma_raw_of_log(more);
    assert(log_of(had + more).skip(log_of(had).len() as int) =~= log_of(more));
}

/// How many bytes of a log records with their bytes take up.
proof fn lemma_raw_len_frames(rs: Seq<Record>)
    ensures
        raw_len(with_frames(rs)) == log_of(rs).len(),
    decreases rs.len(),
{
    if rs.len() > 0 {
        let more = rs.drop_first();
        lemma_raw_len_frames(more);
        lemma_raw_len_cons((rs[0], frame(rs[0])), with_frames(more));
        assert(seq![(rs[0], frame(rs[0]))] + with_frames(more) =~= with_frames(rs));
    } else {
        assert(with_frames(rs) =~= Seq::<(Record, Seq<u8>)>::empty());
    }
}

/// A follower that has had records has had the largest of their numbers.
proof fn lemma_newest_with(rs: Seq<Record>, newest: u64, i: int)
    requires
        0 <= i < rs.len(),
    ensures
        rs[i].seq() <= newest_with(with_frames(rs), newest),
    decreases rs.len(),
{
    let all = with_frames(rs);
    assert(all.drop_last() =~= with_frames(rs.drop_last()));
    assert(all.last().0 == rs.last());
    if i < rs.len() - 1 {
        lemma_newest_with(rs.drop_last(), newest, i);
    }
}

/// The first record of a log.
proof fn lemma_first_of_log(rs: Seq<Record>)
    requires
        all_fit(rs),
    ensures
        match parse_frame(log_of(rs)) {
            Some((r, _)) => rs.len() > 0 && r == rs[0],
            None => rs.len() == 0,
        },
{
    lemma_raw_of_log(rs);
    let s = log_of(rs);
    let raw = recovered_raw(s);
    assert(raw.len() == rs.len());
    if let Some((r, tail)) = parse_frame(s) {
        lemma_parse_frame_shrinks(s);
        assert(raw == seq![(r, s.take(s.len() - tail.len()))] + recovered_raw(tail));
        assert(raw[0].0 == r);
        assert(with_frames(rs)[0].0 == rs[0]);
    }
}

/// A follower that is at the end of a log and goes on as `next_frames` says is sent
/// everything that is logged from then on: what is added to the log, or, where the log
/// is emptied first, all that it holds after that, however much that is. Either way the
/// follower is then at the end of the log.
pub proof fn law_follower_misses_nothing(
    had: Seq<Record>,
    more: Seq<Record>,
    emptied: bool,
    at: Position,
)
    requires
        all_fit(had),
        all_fit(more),
        at.sent == log_of(had).len(),
        forall|i: int| 0 <= i < had.len() ==> (#[trigger] had[i]).seq() <= at.newest,
        emptied ==> forall|i: int| 0 <= i < more.len() ==> (#[trigger] more[i]).seq() > at.newest,
    ensures
        ({
            let log = if emptied {
                log_of(more)
            } else {
                log_of(had + more)
            };
            let from = resume_at(log, at);
            let tail = tail_of(log, from);
            &&& tail == with_frames(more)
            &&& from + raw_len(tail) == log.len()
            &&& forall|i: int|
                0 <= i < more.len() ==> (#[trigger] more[i]).seq() <= newest_with(tail, at.newest)
        }),
{
    lemma_raw_len_frames(more);
    lemma_log_concat(had, more);
    lemma_raw_of_log(more);
    if emptied {
        lemma_first_of_log(more);
        if more.len() > 0 {
            assert(more[0].seq() > at.newest);
        }
        assert(log_of(more).skip(0) =~= log_of(more));
    } else {
        let all = had + more;
        assert forall|i: int| 0 <= i < all.len() implies fits(#[trigger] all[i]) by {
            if i < had.len() {
                assert(all[i] == had[i]);
            } else {
                assert(all[i] == more[i - had.len()]);
            }
        }
        lemma_first_of_log(all);
        if had.len() > 0 {
            assert(all[0] == had[0]);
        } else {
            assert(log_of(had).len() == 0);
        }
        law_tail_is_what_was_logged_since(had, more);
        if all.len() == 0 {
            assert(log_of(all).skip(0) =~= log_of(more));
        }
    }
    assert forall|i: int| 0 <= i < more.len() implies (#[trigger] more[i]).seq() <= newest_with(
        with_frames(more),
        at.newest,
    ) by {
        lemma_newest_with(more, at.newest, i);
    }
}

/// The record of a frame that is sent is the one that was logged.
pub proof fn law_frame_carries_its_record(r: Record)
    requires
        fits(r),
    ensures
        parse_payload(frame(r)) matches Some((x, _)) && x == r,
{
    lemma_payload_round_trip(
        r,
        le_bytes(crc32(payload(r)) as nat, 4),
    );
}

/// What a reader can see of a layer, without sequence numbers.
pub open spec fn unnumbered(c: Layer) -> Map<Seq<u8>, (u64, Seq<u8>)> {
    Map::new(
        |k: Seq<u8>| c.contains_key(k) && c[k].value is Some,
        |k: Seq<u8>| (c[k].expires_at, c[k].value->0),
    )
}

/// A follower that shows what the leader shows still does after a record was written
/// to both, whatever numbers they wrote it under.
pub proof fn law_follower_keeps_up(leader: Layer, follower: Layer, r: Record, seq: u64)
    requires
        unnumbered(leader) == unnumbered(follower),
    ensures
        unnumbered(written(leader, r)) == unnumbered(written(follower, renumbered(r, seq))),
{
    let a = written(leader, r);
    let b = written(follower, renumbered(r, seq));
    assert forall|k: Seq<u8>| #[trigger] unnumbered(a).contains_key(k) == unnumbered(
        b,
    ).contains_key(k) && (unnumbered(a).contains_key(k) ==> unnumbered(a)[k] == unnumbered(
        b,
    )[k]) by {
        assert(unnumbered(leader).contains_key(k) == unnumbered(follower).contains_key(k));
        if unnumbered(leader).contains_key(k) {
            assert(unnumbered(leader)[k] == unnumbered(follower)[k]);
        }
    }
    assert(unnumbered(a) =~= unnumbered(b));
}

/// A record that is written under another number keeps everything else.
pub proof fn law_renumbering_keeps_the_rest(
    key: Seq<u8>,
    value: Seq<u8>,
    to: Seq<u8>,
    expires_at: u64,
    old_seq: u64,
    seq: u64,
)
    ensures
        renumbered(Record::Put { key, seq: old_seq, value }, seq) == (Record::Put {
            key,
            seq,
            value,
        }),
        renumbered(Record::Delete { key, seq: old_seq }, seq) == (Record::Delete { key, seq }),
        renumbered(Record::PutTtl { key, seq: old_seq, value, expires_at }, seq) == (
        Record::PutTtl { key, seq, value, expires_at }),
        renumbered(Record::DeleteRange { from: key, to, seq: old_seq }, seq) == (
        Record::DeleteRange { from: key, to, seq }),
{
}

/// A follower of which every read finds what it finds at the leader still reads the same
/// after a record was written to both.
pub proof fn law_follower_reads_as_the_leader(
    leader: Layer,
    follower: Layer,
    r: Record,
    seq: u64,
    key: Seq<u8>,
    now: u64,
)
    requires
        seen(leader, key, now) == seen(follower, key, now),
    ensures
        seen(written(leader, r), key, now) == seen(
            written(follower, renumbered(r, seq)),
            key,
            now,
        ),
{
}

/// What is sent of records is what is sent of each, in their order: the length of its bytes
/// in the log as four bytes, the most significant first, and then those bytes.
pub proof fn law_each_record_is_sent_behind_its_length(
    a: Seq<(Record, Seq<u8>)>,
    b: Seq<(Record, Seq<u8>)>,
    r: Record,
    bytes: Seq<u8>,
)
    ensures
        wire_of(Seq::empty()) == Seq::<u8>::empty(),
        wire_of(seq![(r, bytes)]) == be_bytes(bytes.len(), 4) + bytes,
        wire_of(a + b) == wire_of(a) + wire_of(b),
        raw_len(seq![(r, bytes)]) == bytes.len(),
        raw_len(a + b) == raw_len(a) + raw_len(b),
    decreases b.len(),
{
    let one = seq![(r, bytes)];
    assert(one.drop_last() =~= Seq::<(Record, Seq<u8>)>::empty());
    assert(wire_of(one.drop_last()) =~= Seq::<u8>::empty());
    assert(wire_of(one) =~= be_bytes(bytes.len(), 4) + bytes);
    assert(raw_len(one.drop_last()) == 0);
    if b.len() == 0 {
        assert(a + b =~= a);
        assert(wire_of(a) + wire_of(b) =~= wire_of(a));
    } else {
        law_each_record_is_sent_behind_its_length(a, b.drop_last(), r, bytes);
        assert((a + b).drop_last() =~= a + b.drop_last());
        assert(wire_of(a + b) =~= wire_of(a) + wire_of(b));
    }
}

/// Of a log that is shorter than where a reader wants to go on, nothing is read.
pub proof fn law_nothing_behind_the_end(log: Seq<u8>, from: nat)
    requires
        from > log.len(),
    ensures
        tail_of(log, from).len() == 0,
{
}

/// The number that a follower has had last is the largest of what it had and of the records
/// that it is sent.
pub proof fn law_newest_is_the_largest(rs: Seq<(Record, Seq<u8>)>, newest: u64)
    ensures
        newest <= newest_with(rs, newest),
        forall|i: int| 0 <= i < rs.len() ==> (#[trigger] rs[i]).0.seq() <= newest_with(rs, newest),
        newest_with(rs, newest) == newest || exists|i: int|
            0 <= i < rs.len() && (#[trigger] rs[i]).0.seq() == newest_with(rs, newest),
    decreases rs.len(),
{
    if rs.len() > 0 {
        let less = rs.drop_last();
        law_newest_is_the_largest(less, newest);
        assert forall|i: int| 0 <= i < rs.len() implies (#[trigger] rs[i]).0.seq() <= newest_with(
            rs,
            newest,
        ) by {
            if i < less.len() {
                assert(less[i] == rs[i]);
            }
        }
        if newest_with(rs, newest) == newest_with(less, newest) {
            if newest_with(less, newest) != newest {
                let i = choose|i: int|
                    0 <= i < less.len() && (#[trigger] less[i]).0.seq() == newest_with(
                        less,
                        newest,
                    );
                assert(rs[i] == less[i]);
            }
        } else {
            assert(rs[rs.len() - 1].0.seq() == newest_with(rs, newest));
        }
    }
}

} // verus!
