//! Transactions with optimistic concurrency control.
//!
//! A transaction reads from a snapshot and buffers its writes. When it commits, the
//! keys that it read must not have been written since it began; else nothing is
//! written and the caller may try again.

use crate::bytes::{copy_bytes, copy_value, lemma_lex_order, lex_lt, Model};
use crate::clock::{is_reading, now_ms};
use crate::engine::LsmEngine;
use crate::engine::laws::lemma_batch_key;
use crate::engine::read::seen;
use crate::engine::write::{wrote, wrote_all};
use crate::error::EngineError;
use crate::layers::{in_range, live, visible_values, Layer};
use crate::snapshot::{batch_fits, batch_written, last_entry, law_last_entry_is_last, BatchEntry, Snapshot, WriteBatch};
use crate::text::{decimal, push_decimal};
use crate::wal::Record;
use vstd::prelude::*;
use vstd::string::*;

verus! {

/// Keys that a transaction read and that were written since it began.
#[derive(Debug)]
pub struct ConflictError {
    pub conflicting_keys: Vec<Vec<u8>>,
}

impl ConflictError {
    /// The error in words.
    pub fn message(&self) -> (r: String)
        ensures
            r@ == "OCC conflict on "@ + decimal(self.conflicting_keys@.len()) + " key(s)"@,
    {
        let mut r: String = "OCC conflict on ".to_owned();
        let n: u64 = self.conflicting_keys.len() as u64;
        push_decimal(&mut r, n);
        r.append(" key(s)");
        r
    }
}

/// Why a transaction was not committed.
#[derive(Debug)]
pub enum OccError {
    Conflict(ConflictError),
    Io(EngineError),
}

impl From<EngineError> for OccError {
    fn from(e: EngineError) -> (r: OccError) {
        OccError::Io(e)
    }
}

impl vstd::std_specs::convert::FromSpecImpl<EngineError> for OccError {
    open spec fn obeys_from_spec() -> bool {
        true
    }

    open spec fn from_spec(e: EngineError) -> OccError {
        OccError::Io(e)
    }
}

/// A transaction. It commits to the engine that it began on: when that is closed, what it
/// knows of deletions without a tombstone is gone.
pub struct OccTransaction {
    read_horizon: u64,
    read_set: Vec<(String, Vec<u8>)>,
    write_buf: WriteBatch,
    snapshot: Snapshot,
}

/// A key of a column family.
pub type CfKey = (Seq<char>, Seq<u8>);

/// Keys as mathematical values.
pub open spec fn key_views(v: Seq<(String, Vec<u8>)>) -> Seq<CfKey> {
    v.map_values(|k: (String, Vec<u8>)| (k.0@, k.1@))
}

/// The key was put or deleted after `horizon`. A deletion counts also where a compaction
/// has dropped its tombstone.
pub open spec fn conflicts(db: &LsmEngine, horizon: u64, k: CfKey) -> bool {
    db.history(k.0).contains_key(k.1) && db.history(k.0)[k.1].seq > horizon
}

/// The keys of a list that were written after `horizon`, in the order of the list.
pub open spec fn conflicting(db: &LsmEngine, horizon: u64, reads: Seq<CfKey>) -> Seq<Seq<u8>>
    decreases reads.len(),
{
    if reads.len() == 0 {
        Seq::empty()
    } else {
        let before = conflicting(db, horizon, reads.drop_last());
        if conflicts(db, horizon, reads.last()) {
            before.push(reads.last().1)
        } else {
            before
        }
    }
}

/// Every key of a list is of a column family that there is.
pub open spec fn reads_known(db: &LsmEngine, reads: Seq<CfKey>) -> bool {
    forall|i: int| 0 <= i < reads.len() ==> db.has_cf((#[trigger] reads[i]).0)
}

/// Whether it can be told of a key when it was last written.
pub open spec fn can_tell(db: &LsmEngine, k: CfKey) -> bool {
    db.has_cf(k.0) && !db.hides(k.0, k.1)
}

/// Of every key of a list it can be told when it was last written.
pub open spec fn reads_told(db: &LsmEngine, reads: Seq<CfKey>) -> bool {
    forall|i: int| 0 <= i < reads.len() ==> can_tell(db, #[trigger] reads[i])
}

/// What the check of a list fails with: the error for the first key of which it cannot
/// be told when it was last written.
pub open spec fn check_fails(db: &LsmEngine, reads: Seq<CfKey>, e: EngineError) -> bool {
    exists|i: int|
        0 <= i < reads.len() && !can_tell(db, #[trigger] reads[i]) && reads_told(
            db,
            reads.take(i),
        ) && e == (if db.has_cf(reads[i].0) {
            EngineError::InvalidData
        } else {
            EngineError::NotFound
        })
}

/// Every entry of a batch is for a column family that there is.
pub open spec fn writes_known(db: &LsmEngine, es: Seq<BatchEntry>) -> bool {
    forall|i: int| 0 <= i < es.len() ==> db.has_cf((#[trigger] es[i]).0)
}

/// Keys that conflict as mathematical values.
pub open spec fn bytes_views(v: Seq<Vec<u8>>) -> Seq<Seq<u8>> {
    v.map_values(|k: Vec<u8>| k@)
}

impl OccTransaction {
    /// Nothing that was written later is seen.
    pub closed spec fn horizon(&self) -> u64 {
        self.read_horizon
    }

    /// The keys that were read, in order.
    pub closed spec fn reads(&self) -> Seq<CfKey> {
        key_views(self.read_set@)
    }

    /// The writes that are buffered, in order.
    pub closed spec fn writes(&self) -> Seq<BatchEntry> {
        self.write_buf@
    }

    /// What the column family `default` held when the transaction began.
    pub closed spec fn base(&self) -> Map<Seq<u8>, Seq<u8>> {
        self.snapshot@
    }

    /// The snapshot is well-formed.
    pub closed spec fn wf(&self) -> bool {
        self.snapshot.wf()
    }

    /// Begin a transaction, as a reader whose clock shows `now`.
    pub fn begin_at(db: &LsmEngine, now: u64) -> (r: Result<OccTransaction, EngineError>)
        requires
            db.wf(),
        ensures
            match r {
                Ok(tx) => {
                    &&& db.has_cf("default"@)
                    &&& !db.is_damaged("default"@)
                    &&& tx.wf()
                    &&& tx.horizon() + 1 == db.next_seq()
                    &&& tx.reads() == Seq::<CfKey>::empty()
                    &&& tx.writes() == Seq::<BatchEntry>::empty()
                    &&& tx.base() == visible_values(db.contents("default"@), now)
                },
                Err(e) => db.fails_with(e, "default"@, db.is_damaged("default"@)),
            },
    {
        match db.snapshot_cf_at("default", now) {
            Ok(snapshot) => {
                let read_horizon: u64 = db.write_seq().saturating_sub(1);
                let tx: OccTransaction = OccTransaction {
                    read_horizon,
                    read_set: Vec::new(),
                    write_buf: WriteBatch::new(),
                    snapshot,
                };
                assert(tx.reads() =~= Seq::<CfKey>::empty());
                Ok(tx)
            },
            Err(e) => Err(e),
        }
    }

    /// Begin a transaction.
    pub fn begin(db: &LsmEngine) -> (r: Result<OccTransaction, EngineError>)
        requires
            db.wf(),
        ensures
            match r {
                Ok(tx) => {
                    &&& db.has_cf("default"@)
                    &&& !db.is_damaged("default"@)
                    &&& tx.wf()
                    &&& tx.horizon() + 1 == db.next_seq()
                    &&& tx.reads() == Seq::<CfKey>::empty()
                    &&& tx.writes() == Seq::<BatchEntry>::empty()
                    &&& exists|now: u64|
                        is_reading(now) && tx.base() == #[trigger] visible_values(db.contents("default"@), now)
                },
                Err(e) => db.fails_with(e, "default"@, db.is_damaged("default"@)),
            },
    {
        Self::begin_at(db, now_ms())
    }

    /// What the transaction sees of a key: its own last write, else what was there
    /// when it began. Of other families than `default` only own writes are seen.
    pub open spec fn sees(&self, cf: Seq<char>, key: Seq<u8>) -> Option<Seq<u8>> {
        match last_entry(self.writes(), cf, key) {
            Some(e) => e.2,
            None => if cf == "default"@ && self.base().contains_key(key) {
                Some(self.base()[key])
            } else {
                None
            },
        }
    }

    /// Read a key. It is checked when the transaction commits.
    pub fn get_cf(&mut self, cf: &str, key: &[u8]) -> (r: Option<Vec<u8>>)
        requires
            old(self).wf(),
        ensures
            final(self).wf(),
            r.model() == old(self).sees(cf@, key@),
            final(self).reads() == old(self).reads().push((cf@, key@)),
            final(self).writes() == old(self).writes(),
            final(self).base() == old(self).base(),
            final(self).horizon() == old(self).horizon(),
    {
        let ghost before = self.reads();
        let name: String = cf.to_owned();
        let is_default: bool = name == "default".to_owned();
        self.read_set.push((name, copy_bytes(key)));
        assert(self.reads() =~= before.push((cf@, key@)));
        match self.write_buf.last_write(cf, key) {
            Some(v) => copy_value(v),
            None => {
                if !is_default {
                    return None;
                }
                match self.snapshot.get(key) {
                    Some(v) => Some(copy_bytes(v)),
                    None => None,
                }
            },
        }
    }

    /// Read a key of the column family `default`.
    pub fn get(&mut self, key: &[u8]) -> (r: Option<Vec<u8>>)
        requires
            old(self).wf(),
        ensures
            final(self).wf(),
            r.model() == old(self).sees("default"@, key@),
            final(self).reads() == old(self).reads().push(("default"@, key@)),
            final(self).writes() == old(self).writes(),
            final(self).base() == old(self).base(),
            final(self).horizon() == old(self).horizon(),
    {
        self.get_cf("default", key)
    }

    /// Buffer a put.
    pub fn put_cf(&mut self, cf: &str, key: Vec<u8>, value: Vec<u8>)
        requires
            old(self).wf(),
        ensures
            final(self).wf(),
            final(self).writes() == old(self).writes().push((cf@, key@, Some(value@))),
            final(self).reads() == old(self).reads(),
            final(self).base() == old(self).base(),
            final(self).horizon() == old(self).horizon(),
    {
        let _ = self.write_buf.put(cf, key, value);
    }

    /// Buffer a put to the column family `default`.
    pub fn put(&mut self, key: Vec<u8>, value: Vec<u8>)
        requires
            old(self).wf(),
        ensures
            final(self).wf(),
            final(self).writes() == old(self).writes().push(
                ("default"@, key@, Some(value@)),
            ),
            final(self).reads() == old(self).reads(),
            final(self).base() == old(self).base(),
            final(self).horizon() == old(self).horizon(),
    {
        self.put_cf("default", key, value);
    }

    /// Buffer a deletion.
    pub fn delete_cf(&mut self, cf: &str, key: Vec<u8>)
        requires
            old(self).wf(),
        ensures
            final(self).wf(),
            final(self).writes() == old(self).writes().push((cf@, key@, None)),
            final(self).reads() == old(self).reads(),
            final(self).base() == old(self).base(),
            final(self).horizon() == old(self).horizon(),
    {
        let _ = self.write_buf.delete(cf, key);
    }

    /// Buffer a deletion from the column family `default`.
    pub fn delete(&mut self, key: Vec<u8>)
        requires
            old(self).wf(),
        ensures
            final(self).wf(),
            final(self).writes() == old(self).writes().push(("default"@, key@, None)),
            final(self).reads() == old(self).reads(),
            final(self).base() == old(self).base(),
            final(self).horizon() == old(self).horizon(),
    {
        self.delete_cf("default", key);
    }

    /// Make the buffered writes, unless a key that was read was written since the
    /// transaction began, or it cannot be told whether it was.
    pub fn commit(self, db: &mut LsmEngine) -> (r: Result<(), OccError>)
        requires
            old(db).wf(),
            old(db).has_room(),
            batch_fits(self.writes()),
        ensures
            match r {
                Ok(_) => {
                    &&& reads_told(old(db), self.reads())
                    &&& conflicting(old(db), self.horizon(), self.reads()).len() == 0
                    &&& writes_known(old(db), self.writes())
                    &&& wrote_all(old(db), final(db), self.writes())
                },
                Err(OccError::Conflict(c)) => {
                    &&& reads_told(old(db), self.reads())
                    &&& bytes_views(c.conflicting_keys@) == conflicting(
                        old(db),
                        self.horizon(),
                        self.reads(),
                    )
                    &&& c.conflicting_keys@.len() > 0
                    &&& *final(db) == *old(db)
                },
                Err(OccError::Io(e)) => {
                    &&& if reads_told(old(db), self.reads()) {
                        &&& e == EngineError::NotFound
                        &&& !writes_known(old(db), self.writes())
                        &&& conflicting(old(db), self.horizon(), self.reads()).len() == 0
                    } else {
                        check_fails(old(db), self.reads(), e)
                    }
                    &&& *final(db) == *old(db)
                },
            },
    {
        let ghost reads = self.reads();
        let mut found: Vec<Vec<u8>> = Vec::new();
        let mut i: usize = 0;
        assert(reads.take(0) =~= Seq::<CfKey>::empty());
        assert(bytes_views(found@) =~= Seq::<Seq<u8>>::empty());
        while i < self.read_set.len()
            invariant
                i <= self.read_set@.len(),
                reads == self.reads(),
                db.wf(),
                *db == *old(db),
                forall|j: int| 0 <= j < i ==> can_tell(db, #[trigger] reads[j]),
                bytes_views(found@) == conflicting(
                    db,
                    self.read_horizon,
                    reads.take(i as int),
                ),
            decreases self.read_set@.len() - i,
        {
            let ghost before = bytes_views(found@);
            let ghost k = reads[i as int];
            proof {
                let t = reads.take(i + 1);
                assert(t.drop_last() =~= reads.take(i as int));
                assert(t.last() == k);
            }
            match db.key_write_seq(self.read_set[i].0.as_str(), self.read_set[i].1.as_slice()) {
                Ok(seq) => {
                    match seq {
                        Some(s) => {
                            if s > self.read_horizon {
                                found.push(copy_bytes(self.read_set[i].1.as_slice()));
                                assert(bytes_views(found@) =~= before.push(k.1));
                            }
                        },
                        None => {},
                    }
                },
                Err(e) => {
                    proof {
                        let done = reads.take(i as int);
                        assert forall|j: int| 0 <= j < done.len() implies can_tell(
                            db,
                            #[trigger] done[j],
                        ) by {
                            assert(done[j] == reads[j]);
                        }
                        assert(!can_tell(db, reads[i as int]));
                    }
                    return Err(OccError::Io(e));
                },
            }
            i = i + 1;
        }
        assert(reads.take(i as int) =~= reads);
        if found.len() > 0 {
            return Err(OccError::Conflict(ConflictError { conflicting_keys: found }));
        }
        match db.write_batch(self.write_buf) {
            Ok(_) => Ok(()),
            Err(e) => Err(OccError::Io(e)),
        }
    }
}

// ---- laws ----------------------------------------------------------------------

/// A transaction sees its own writes, the last one of a key.
pub proof fn law_read_your_own_writes(
    before: &OccTransaction,
    after: &OccTransaction,
    cf: Seq<char>,
    key: Seq<u8>,
    value: Option<Seq<u8>>,
)
    requires
        after.writes() == before.writes().push((cf, key, value)),
    ensures
        after.sees(cf, key) == value,
{
    assert(after.writes().last() == (cf, key, value));
}

/// The last write of a transaction to a key is what it reads of it, whatever it wrote
/// to the key before and to other keys.
pub proof fn law_last_own_write_is_read(tx: &OccTransaction, cf: Seq<char>, key: Seq<u8>, i: int)
    requires
        0 <= i < tx.writes().len(),
        tx.writes()[i].0 == cf,
        tx.writes()[i].1 == key,
        forall|j: int|
            i < j < tx.writes().len() ==> (#[trigger] tx.writes()[j]).0 != cf || tx.writes()[j].1
                != key,
    ensures
        tx.sees(cf, key) == tx.writes()[i].2,
{
    law_last_entry_is_last(tx.writes(), cf, key, i);
}

/// A key that a transaction has not written itself reads as what was there when it began,
/// whatever else is buffered. Of other families than `default` nothing was there.
pub proof fn law_unwritten_key_reads_as_at_begin(tx: &OccTransaction, cf: Seq<char>, key: Seq<u8>)
    requires
        forall|i: int|
            0 <= i < tx.writes().len() ==> (#[trigger] tx.writes()[i]).0 != cf || tx.writes()[i].1
                != key,
    ensures
        cf == "default"@ && tx.base().contains_key(key) ==> tx.sees(cf, key) == Some(
            tx.base()[key],
        ),
        cf == "default"@ && !tx.base().contains_key(key) ==> tx.sees(cf, key) is None,
        cf != "default"@ ==> tx.sees(cf, key) is None,
{
    lemma_last_entry(tx.writes(), cf, key);
}

/// A put or a deletion of one key changes what a transaction reads of no other key.
pub proof fn law_write_changes_no_other_read(
    before: &OccTransaction,
    after: &OccTransaction,
    written: BatchEntry,
    cf: Seq<char>,
    key: Seq<u8>,
)
    requires
        after.writes() == before.writes().push(written),
        after.base() == before.base(),
        written.0 != cf || written.1 != key,
    ensures
        after.sees(cf, key) == before.sees(cf, key),
{
    assert(after.writes().last() == written);
    assert(after.writes().drop_last() =~= before.writes());
}

/// A transaction that has written nothing reads of every key of `default` what the engine
/// showed when it began.
pub proof fn law_begun_transaction_reads_the_engine(
    db: &LsmEngine,
    now: u64,
    tx: OccTransaction,
    key: &[u8],
    got: Option<Vec<u8>>,
)
    requires
        call_ensures(OccTransaction::begin_at, (db, now), Ok(tx)),
        call_ensures(LsmEngine::get_cf_at, (db, "default", key, now), Ok(got)),
    ensures
        tx.sees("default"@, key@) == got.model(),
        tx.reads().len() == 0,
        tx.writes().len() == 0,
{
}

/// Something that happens to an engine.
pub enum Step {
    /// A record is written to a column family.
    Write(Seq<char>, Record),
    /// The writes of a batch are made.
    Batch(Seq<BatchEntry>),
    /// Anything that writes to no key: a compaction is applied, a task or the queued
    /// operations are taken, or a column family is created.
    Upkeep,
}

/// The engine `a` becomes `b` by a step.
pub open spec fn stepped(a: &LsmEngine, b: &LsmEngine, step: Step) -> bool {
    match step {
        Step::Write(cf, r) => a.has_cf(cf) && wrote(a, b, cf, r) && r.seq() == a.next_seq(),
        Step::Batch(es) => writes_known(a, es) && wrote_all(a, b, es),
        Step::Upkeep => {
            &&& b.wf()
            &&& b.next_seq() == a.next_seq()
            &&& forall|cf: Seq<char>|
                a.has_cf(cf) ==> b.has_cf(cf) && #[trigger] b.history(cf) == a.history(cf)
        },
    }
}

/// A record puts or deletes a key of a family that holds `c`. A deletion of a range
/// deletes the keys in it that have a value.
pub open spec fn touches(c: Layer, r: Record, key: Seq<u8>) -> bool {
    match r {
        Record::Put { key: k, .. } => k == key,
        Record::PutTtl { key: k, .. } => k == key,
        Record::Delete { key: k, .. } => k == key,
        Record::DeleteRange { from, to, .. } => in_range(key, from, to) && live(c).contains_key(
            key,
        ),
    }
}

/// A step that the engine `a` takes puts or deletes a key.
pub open spec fn step_writes(a: &LsmEngine, step: Step, k: CfKey) -> bool {
    match step {
        Step::Write(cf, r) => cf == k.0 && touches(a.contents(cf), r, k.1),
        Step::Batch(es) => exists|i: int|
            0 <= i < es.len() && (#[trigger] es[i]).0 == k.0 && es[i].1 == k.1,
        Step::Upkeep => false,
    }
}

/// The states of an engine and the steps between them, from the state in which a
/// transaction with this horizon began.
pub open spec fn ran(states: Seq<LsmEngine>, steps: Seq<Step>, horizon: u64) -> bool {
    &&& states.len() == steps.len() + 1
    &&& states[0].wf()
    &&& horizon + 1 == states[0].next_seq()
    &&& forall|i: int|
        0 <= i < steps.len() ==> stepped(&states[i], &states[i + 1], #[trigger] steps[i])
}

/// One of the steps puts or deletes a key.
pub open spec fn written_since(states: Seq<LsmEngine>, steps: Seq<Step>, k: CfKey) -> bool {
    exists|i: int| 0 <= i < steps.len() && step_writes(&states[i], #[trigger] steps[i], k)
}

/// Whether there is an entry for a key is whether there is a last one.
proof fn lemma_last_entry(es: Seq<BatchEntry>, cf: Seq<char>, key: Seq<u8>)
    ensures
        last_entry(es, cf, key) is Some <==> exists|i: int|
            0 <= i < es.len() && (#[trigger] es[i]).0 == cf && es[i].1 == key,
    decreases es.len(),
{
    if es.len() > 0 {
        let less = es.drop_last();
        lemma_last_entry(less, cf, key);
        if last_entry(less, cf, key) is Some {
            let i = choose|i: int|
                0 <= i < less.len() && (#[trigger] less[i]).0 == cf && less[i].1 == key;
            assert(es[i] == less[i]);
        }
        if es.last().0 == cf && es.last().1 == key {
            assert(es[es.len() - 1].0 == cf);
        }
        if exists|i: int| 0 <= i < es.len() && (#[trigger] es[i]).0 == cf && es[i].1 == key {
            let i = choose|i: int|
                0 <= i < es.len() && (#[trigger] es[i]).0 == cf && es[i].1 == key;
            if i < less.len() {
                assert(less[i] == es[i]);
            }
        }
    }
}

/// After a step a key conflicts if it did before or the step wrote to it; else nothing
/// has happened to it.
pub proof fn law_step_conflicts(a: &LsmEngine, b: &LsmEngine, step: Step, horizon: u64, k: CfKey)
    requires
        a.wf(),
        stepped(a, b, step),
        horizon < a.next_seq(),
        a.has_cf(k.0),
    ensures
        b.wf(),
        b.has_cf(k.0),
        a.next_seq() <= b.next_seq(),
        conflicts(b, horizon, k) <==> conflicts(a, horizon, k) || step_writes(a, step, k),
        !step_writes(a, step, k) ==> b.history(k.0).contains_key(k.1) == a.history(
            k.0,
        ).contains_key(k.1) && (b.history(k.0).contains_key(k.1) ==> b.history(k.0)[k.1]
            == a.history(k.0)[k.1]),
{
    a.law_history_adds_only_deletions(k.0);
    match step {
        Step::Write(cf, r) => {
            assert(b.family(k.0).buried@ == a.family(k.0).buried@);
            if cf != k.0 {
                assert(b.contents(k.0) == a.contents(k.0));
            }
        },
        Step::Batch(es) => {
            assert(b.family(k.0).buried@ == a.family(k.0).buried@);
            assert(b.contents(k.0) == batch_written(a.contents(k.0), es, k.0, a.next_seq()));
            lemma_batch_key(a.contents(k.0), es, k.0, a.next_seq(), k.1);
            lemma_last_entry(es, k.0, k.1);
        },
        Step::Upkeep => {
            assert(b.history(k.0) == a.history(k.0));
        },
    }
}

/// A key conflicts if and only if it was put or deleted since the transaction began,
/// whatever else was done to the engine in the meantime, and a key that was not is as
/// it was.
pub proof fn law_conflict_iff_written_since(
    states: Seq<LsmEngine>,
    steps: Seq<Step>,
    horizon: u64,
    k: CfKey,
)
    requires
        ran(states, steps, horizon),
        states[0].has_cf(k.0),
    ensures
        states.last().wf(),
        states.last().has_cf(k.0),
        horizon < states.last().next_seq(),
        conflicts(&states.last(), horizon, k) <==> written_since(states, steps, k),
        !written_since(states, steps, k) ==> states.last().history(k.0).contains_key(k.1)
            == states[0].history(k.0).contains_key(k.1) && (states[0].history(k.0).contains_key(k.1)
            ==> states.last().history(k.0)[k.1] == states[0].history(k.0)[k.1]),
    decreases steps.len(),
{
    if steps.len() == 0 {
        states[0].law_history_adds_only_deletions(k.0);
    } else {
        let less = states.drop_last();
        let fewer = steps.drop_last();
        let n = fewer.len() as int;
        assert forall|i: int| 0 <= i < fewer.len() implies stepped(
            &less[i],
            &less[i + 1],
            #[trigger] fewer[i],
        ) by {
            assert(steps[i] == fewer[i]);
        }
        law_conflict_iff_written_since(less, fewer, horizon, k);
        assert(less.last() == states[n]);
        assert(stepped(&states[n], &states[n + 1], steps[n]));
        law_step_conflicts(&states[n], &states[n + 1], steps[n], horizon, k);
        if written_since(less, fewer, k) {
            let i = choose|i: int|
                0 <= i < fewer.len() && step_writes(&less[i], #[trigger] fewer[i], k);
            assert(steps[i] == fewer[i]);
        }
        if written_since(states, steps, k) {
            let i = choose|i: int|
                0 <= i < steps.len() && step_writes(&states[i], #[trigger] steps[i], k);
            if i < n {
                assert(fewer[i] == steps[i]);
            }
        }
    }
}

/// The keys that a refused commit names are, as a set, those that the transaction read
/// and that were put or deleted since it began; a commit is refused if and only if
/// there is one. A transaction that read nothing is never refused.
pub proof fn law_commit_names_what_was_written(
    states: Seq<LsmEngine>,
    steps: Seq<Step>,
    horizon: u64,
    reads: Seq<CfKey>,
    key: Seq<u8>,
)
    requires
        ran(states, steps, horizon),
        reads_known(&states[0], reads),
    ensures
        conflicting(&states.last(), horizon, reads).contains(key) <==> exists|j: int|
            0 <= j < reads.len() && (#[trigger] reads[j]).1 == key && written_since(
                states,
                steps,
                reads[j],
            ),
        conflicting(&states.last(), horizon, reads).len() == 0 <==> forall|j: int|
            0 <= j < reads.len() ==> !written_since(states, steps, #[trigger] reads[j]),
    decreases reads.len(),
{
    let db = &states.last();
    let all = conflicting(db, horizon, reads);
    if reads.len() > 0 {
        let less = reads.drop_last();
        let k = reads[reads.len() - 1];
        assert forall|j: int| 0 <= j < less.len() implies states[0].has_cf(
            (#[trigger] less[j]).0,
        ) by {
            assert(less[j] == reads[j]);
        }
        law_commit_names_what_was_written(states, steps, horizon, less, key);
        law_conflict_iff_written_since(states, steps, horizon, k);
        let before = conflicting(db, horizon, less);
        if before.contains(key) {
            let i = choose|i: int| 0 <= i < before.len() && before[i] == key;
            assert(all[i] == key);
            let j = choose|j: int|
                0 <= j < less.len() && (#[trigger] less[j]).1 == key && written_since(
                    states,
                    steps,
                    less[j],
                );
            assert(reads[j] == less[j]);
        }
        if written_since(states, steps, k) {
            assert(all[before.len() as int] == k.1);
        }
        if all.contains(key) && !before.contains(key) {
            let i = choose|i: int| 0 <= i < all.len() && all[i] == key;
            if i < before.len() {
                assert(before[i] == key);
            }
            assert(written_since(states, steps, k) && k.1 == key);
        }
        if exists|j: int|
            0 <= j < reads.len() && (#[trigger] reads[j]).1 == key && written_since(
                states,
                steps,
                reads[j],
            ) {
            let j = choose|j: int|
                0 <= j < reads.len() && (#[trigger] reads[j]).1 == key && written_since(
                    states,
                    steps,
                    reads[j],
                );
            if j < less.len() {
                assert(less[j] == reads[j]);
            }
        }
        if forall|j: int| 0 <= j < less.len() ==> !written_since(states, steps, #[trigger] less[j]) {
            assert forall|j: int| 0 <= j < reads.len() && !written_since(states, steps, k) implies
                !written_since(states, steps, #[trigger] reads[j]) by {
                if j < less.len() {
                    assert(less[j] == reads[j]);
                }
            }
        } else {
            let j = choose|j: int|
                0 <= j < less.len() && written_since(states, steps, #[trigger] less[j]);
            assert(reads[j] == less[j]);
        }
    }
}

/// Whatever puts or deletes a key that a transaction read refuses its commit: a put with
/// or without an expiry, a deletion, a deletion of a range that the key is in if it had a
/// value, and an entry of a batch.
pub proof fn law_write_to_read_key_refuses_commit(
    states: Seq<LsmEngine>,
    steps: Seq<Step>,
    horizon: u64,
    reads: Seq<CfKey>,
    j: int,
    i: int,
)
    requires
        ran(states, steps, horizon),
        reads_known(&states[0], reads),
        0 <= j < reads.len(),
        0 <= i < steps.len(),
        match steps[i] {
            Step::Write(cf, r) => cf == reads[j].0 && match r {
                Record::Put { key, .. } => key == reads[j].1,
                Record::PutTtl { key, .. } => key == reads[j].1,
                Record::Delete { key, .. } => key == reads[j].1,
                Record::DeleteRange { from, to, .. } => (from == reads[j].1 || lex_lt(
                    from,
                    reads[j].1,
                )) && lex_lt(reads[j].1, to) && states[i].contents(cf).contains_key(reads[j].1)
                    && states[i].contents(cf)[reads[j].1].value is Some,
            },
            Step::Batch(es) => exists|n: int|
                0 <= n < es.len() && (#[trigger] es[n]).0 == reads[j].0 && es[n].1 == reads[j].1,
            Step::Upkeep => false,
        },
    ensures
        conflicting(&states.last(), horizon, reads).contains(reads[j].1),
        conflicting(&states.last(), horizon, reads).len() > 0,
{
    lemma_lex_order();
    assert(step_writes(&states[i], steps[i], reads[j]));
    assert(written_since(states, steps, reads[j]));
    law_commit_names_what_was_written(states, steps, horizon, reads, reads[j].1);
}

/// A commit is refused for no other reason: where no step names a key that was read, nor
/// deletes a range that one is in, there is no conflict.
pub proof fn law_other_writes_refuse_no_commit(
    states: Seq<LsmEngine>,
    steps: Seq<Step>,
    horizon: u64,
    reads: Seq<CfKey>,
)
    requires
        ran(states, steps, horizon),
        reads_known(&states[0], reads),
        forall|j: int, i: int|
            #![trigger reads[j], steps[i]]
            0 <= j < reads.len() && 0 <= i < steps.len() ==> match steps[i] {
                Step::Write(cf, r) => cf != reads[j].0 || match r {
                    Record::Put { key, .. } => key != reads[j].1,
                    Record::PutTtl { key, .. } => key != reads[j].1,
                    Record::Delete { key, .. } => key != reads[j].1,
                    Record::DeleteRange { from, to, .. } => lex_lt(reads[j].1, from) || reads[j].1
                        == to || lex_lt(to, reads[j].1),
                },
                Step::Batch(es) => forall|n: int|
                    0 <= n < es.len() ==> (#[trigger] es[n]).0 != reads[j].0 || es[n].1
                        != reads[j].1,
                Step::Upkeep => true,
            },
    ensures
        conflicting(&states.last(), horizon, reads).len() == 0,
{
    lemma_lex_order();
    assert forall|j: int| 0 <= j < reads.len() implies !written_since(
        states,
        steps,
        #[trigger] reads[j],
    ) by {
        assert forall|i: int| 0 <= i < steps.len() implies !step_writes(
            &states[i],
            #[trigger] steps[i],
            reads[j],
        ) by {}
    }
    law_commit_names_what_was_written(states, steps, horizon, reads, Seq::empty());
}

/// Where the check of a commit finds no conflict, what was read is still what a
/// reader sees: between the reads of the transaction and its writes, nothing else
/// happened to the keys that it read.
pub proof fn law_committed_reads_are_current(
    states: Seq<LsmEngine>,
    steps: Seq<Step>,
    horizon: u64,
    reads: Seq<CfKey>,
    j: int,
    now: u64,
)
    requires
        ran(states, steps, horizon),
        reads_known(&states[0], reads),
        conflicting(&states.last(), horizon, reads).len() == 0,
        0 <= j < reads.len(),
    ensures
        seen(states.last().contents(reads[j].0), reads[j].1, now) == seen(
            states[0].contents(reads[j].0),
            reads[j].1,
            now,
        ),
{
    let k = reads[j];
    let a = &states[0];
    let b = &states.last();
    law_commit_names_what_was_written(states, steps, horizon, reads, k.1);
    law_conflict_iff_written_since(states, steps, horizon, k);
    a.law_history_adds_only_deletions(k.0);
    b.law_history_adds_only_deletions(k.0);
    lemma_seen_live(a.contents(k.0), k.1, now);
    lemma_seen_live(b.contents(k.0), k.1, now);
    lemma_seen_live(a.history(k.0), k.1, now);
    lemma_seen_live(b.history(k.0), k.1, now);
}

/// What is seen of a key depends only on what is live.
proof fn lemma_seen_live(c: Layer, key: Seq<u8>, now: u64)
    ensures
        seen(live(c), key, now) == seen(c, key, now),
{
}

} // verus!
