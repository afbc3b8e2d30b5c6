//! Writing to the engine.

use crate::buffer::record_bytes;
use crate::bytes::copy_bytes;
use crate::clock::{expires_at, expiry, is_reading, now_ms};
use crate::compaction::reverse;
use crate::engine::{flush_ops, grown, is_job_for, lemma_grown_same, level_to_compact, CompactionJob,
    CompactionResult, CompactionTask, LsmEngine, MEM_TABLE_SIZE_LIMIT};
use crate::engine::crash::{crash_safe, disk_after, lemma_crash_steps, recovers};
use crate::error::EngineError;
use crate::layers::live;
use crate::manifest::{files_of, recovered_edits};
use crate::memtable::{size_sum, Version};
use crate::recovery::{families_distinct, family_names, family_ok, lemma_family_frame, written};
use crate::replay::apply_record;
use crate::snapshot::{batch_fits, batch_record, batch_written, BatchEntry, WriteBatch};
use crate::storage::{appends_of, files_view, lemma_append_parts, op_views, FileId, FileName, FileOp,
    Op};
use crate::stored::stored;
use crate::text::table_name;
use crate::wal::{fits, frame, Record, WalRecord};
use vstd::prelude::*;

verus! {

/// One engine came from another by writing `r` to the family `cf`: the record
/// goes to the log before anything else is done, the family holds what it held
/// and the record, the other families hold what they held, and after a crash the
/// record is there or not.
pub open spec fn wrote(before: &LsmEngine, after: &LsmEngine, cf: Seq<char>, r: Record) -> bool {
    &&& kept(before, after)
    &&& after.contents(cf) == written(before.contents(cf), r)
    &&& forall|other: Seq<char>|
        before.has_cf(other) && other != cf ==> #[trigger] after.contents(other)
            == before.contents(other)
    &&& after.next_seq() == before.next_seq() + 1
    &&& before.queued().len() < after.queued().len()
    &&& after.queued()[before.queued().len() as int] == Op::Append(FileId::Wal(cf), frame(r))
    &&& crash_safe(before, after)
    &&& exists|mid: LsmEngine| #[trigger] logged(before, &mid, cf, r) && settled(&mid, after, cf)
}

/// One engine came from another by logging `r` for the family `cf` and applying it
/// to what waits in memory.
pub open spec fn logged(before: &LsmEngine, after: &LsmEngine, cf: Seq<char>, r: Record) -> bool {
    let a = before.family(cf);
    let b = after.family(cf);
    &&& after.families() == before.families()
    &&& forall|other: Seq<char>|
        before.has_cf(other) && other != cf ==> #[trigger] after.family(other) == before.family(
            other,
        )
    &&& b.levels == a.levels
    &&& b.mem@ == apply_record(a.mem@, a.tables(), r)
    &&& b.mem.size() == size_sum(a.mem.size(), record_bytes(a.contents(), r))
    &&& b.wal@ == a.wal@ + frame(r)
    &&& after.queued() == before.queued().push(Op::Append(FileId::Wal(cf), frame(r)))
    &&& after.file_number() == before.file_number()
    &&& after.job() == before.job()
    &&& after.task_ready() == before.task_ready()
}

/// What waits in memory of a family is to be written to a table: there is enough of
/// it, and there is a number left for the file.
pub open spec fn flush_due(e: &LsmEngine, cf: Seq<char>) -> bool {
    e.family(cf).mem.size() >= MEM_TABLE_SIZE_LIMIT && e.file_number() < u64::MAX
}

/// One engine came from another by writing what waited in memory of the family `cf`
/// to a new table of level 0.
pub open spec fn flushed_family(before: &LsmEngine, after: &LsmEngine, cf: Seq<char>) -> bool {
    let a = before.family(cf);
    let b = after.family(cf);
    let t = b.levels@[0]@.last();
    &&& t.wf()
    &&& t.name() == table_name(0, before.file_number() as nat)
    &&& t.level() == 0
    &&& t.entries() == a.mem.pairs()
    &&& !t.is_damaged()
    &&& b.levels@.len() == a.levels@.len()
    &&& b.levels@[0]@ == a.levels@[0]@.push(t)
    &&& forall|l: int| 1 <= l < a.levels@.len() ==> (#[trigger] b.levels@[l])@ == a.levels@[l]@
    &&& b.mem@ == Map::<Seq<u8>, Version>::empty()
    &&& b.mem.size() == 0
    &&& b.wal@ == Seq::<u8>::empty()
    &&& after.queued() == before.queued() + flush_ops(cf, t)
}

/// The first family with something to compact has position `i`.
pub open spec fn compacts_first(e: &LsmEngine, i: int) -> bool {
    &&& 0 <= i < e.families().len()
    &&& level_to_compact(e.family(e.families()[i])) is Some
    &&& forall|j: int|
        0 <= j < i ==> level_to_compact(e.family(#[trigger] e.families()[j])) is None
}

/// `job` is the next one, under the number `seq`: it compacts the first family that
/// has something to compact.
pub open spec fn is_next_job(e: &LsmEngine, job: CompactionJob, seq: int) -> bool {
    exists|i: int| #[trigger]
        compacts_first(e, i) && job.seq == seq && is_job_for(
            job,
            e.family(e.families()[i]),
            level_to_compact(e.family(e.families()[i]))->0,
            job.seq,
        )
}

/// Some family has something to compact.
pub open spec fn compaction_due(e: &LsmEngine) -> bool {
    exists|i: int|
        0 <= i < e.families().len() && level_to_compact(e.family(#[trigger] e.families()[i])) is Some
}

/// One engine came from another by what follows a write to the family `cf`: it is
/// flushed if that is due, and then a job is started if none is under way, some
/// family has something to compact, and there is a number left for the file.
pub open spec fn settled(before: &LsmEngine, after: &LsmEngine, cf: Seq<char>) -> bool {
    let number = before.file_number() + (if flush_due(before, cf) {
        1int
    } else {
        0int
    });
    &&& after.families() == before.families()
    &&& forall|other: Seq<char>|
        before.has_cf(other) && other != cf ==> #[trigger] after.family(other) == before.family(
            other,
        )
    &&& if flush_due(before, cf) {
        flushed_family(before, after, cf)
    } else {
        after.family(cf) == before.family(cf) && after.queued() == before.queued()
    }
    &&& if before.job() is None && number < u64::MAX && compaction_due(after) {
        &&& after.job() is Some
        &&& is_next_job(after, after.job()->0, number)
        &&& after.task_ready()
        &&& after.file_number() == number + 1
    } else {
        &&& after.job() == before.job()
        &&& after.task_ready() == before.task_ready()
        &&& after.file_number() == number
    }
}

/// What no write changes: the families, the deletions that compactions have left no
/// tombstone of, the files as they were last synced, the operations that were queued
/// already, and the job that is under way.
pub open spec fn kept(before: &LsmEngine, after: &LsmEngine) -> bool {
    &&& after.wf()
    &&& after.families() == before.families()
    &&& forall|cf: Seq<char>|
        before.has_cf(cf) ==> #[trigger] after.family(cf).buried@ == before.family(cf).buried@
    &&& after.synced() == before.synced()
    &&& before.queued().is_prefix_of(after.queued())
    &&& before.is_compacting() ==> after.is_compacting()
    &&& forall|t: CompactionTask| before.hands(t) ==> #[trigger] after.hands(t)
    &&& forall|r: CompactionResult| before.expects(r) ==> #[trigger] after.expects(r)
}

/// What is kept twice is kept.
pub proof fn lemma_kept(a: &LsmEngine, b: &LsmEngine, c: &LsmEngine)
    requires
        kept(a, b),
        kept(b, c),
    ensures
        kept(a, c),
{
    let x = a.queued();
    let y = b.queued();
    let z = c.queued();
    assert forall|i: int| 0 <= i < x.len() implies x[i] == z[i] by {
        assert(x[i] == y.subrange(0, x.len() as int)[i]);
        assert(y[i] == z.subrange(0, y.len() as int)[i]);
    }
    assert(x =~= z.subrange(0, x.len() as int));
    assert forall|cf: Seq<char>| a.has_cf(cf) implies #[trigger] c.family(cf).buried@ == a.family(
        cf,
    ).buried@ by {
        assert(b.has_cf(cf));
        assert(b.family(cf).buried@ == a.family(cf).buried@);
    }
}

/// One engine came from another by making the writes of a batch: all of them go to the
/// logs with one operation before anything else is done, all have the same sequence
/// number, each family holds what it held and what was written to it, and after a crash
/// the whole batch is there or nothing of it.
pub open spec fn wrote_all(before: &LsmEngine, after: &LsmEngine, es: Seq<BatchEntry>) -> bool {
    &&& kept(before, after)
    &&& forall|cf: Seq<char>|
        before.has_cf(cf) ==> #[trigger] after.contents(cf) == batch_written(
            before.contents(cf),
            es,
            cf,
            before.next_seq(),
        )
    &&& after.next_seq() == before.next_seq() + (if es.len() == 0 {
        0int
    } else {
        1int
    })
    &&& crash_safe(before, after)
    &&& es.len() == 0 ==> *after == *before
    &&& es.len() > 0 ==> {
        &&& before.queued().len() < after.queued().len()
        &&& after.queued()[before.queued().len() as int] == Op::AppendAll(
            batch_parts(es, before.next_seq()),
        )
        &&& exists|logs: Seq<LsmEngine>, mid: LsmEngine, rest: Seq<LsmEngine>| #[trigger]
            logs_all(before, logs, es, before.next_seq()) && #[trigger] requeued(
                &logs.last(),
                &mid,
            ) && #[trigger] settles_all(&mid, rest, before.families()) && rest.last() == *after
    }
}

/// What a batch appends to the logs.
pub open spec fn batch_parts(es: Seq<BatchEntry>, seq: u64) -> Seq<(FileId, Seq<u8>)> {
    es.map_values(|e: BatchEntry| (FileId::Wal(e.0), frame(batch_record(e, seq))))
}

/// One engine is another but for the operations that are queued.
pub open spec fn requeued(a: &LsmEngine, b: &LsmEngine) -> bool {
    &&& b.families() == a.families()
    &&& forall|cf: Seq<char>| #[trigger] b.family(cf) == a.family(cf)
    &&& b.next_seq() == a.next_seq()
    &&& b.file_number() == a.file_number()
    &&& b.job() == a.job()
    &&& b.task_ready() == a.task_ready()
}

/// The states that an engine goes through when the entries of a batch are logged.
pub open spec fn logs_all(
    before: &LsmEngine,
    states: Seq<LsmEngine>,
    es: Seq<BatchEntry>,
    seq: u64,
) -> bool {
    &&& states.len() == es.len() + 1
    &&& states[0] == *before
    &&& forall|i: int|
        0 < i < states.len() ==> logged(
            &states[i - 1],
            #[trigger] &states[i],
            es[i - 1].0,
            batch_record(es[i - 1], seq),
        )
}

/// The states that an engine goes through when families are settled.
pub open spec fn settles_all(
    before: &LsmEngine,
    states: Seq<LsmEngine>,
    names: Seq<Seq<char>>,
) -> bool {
    &&& states.len() == names.len() + 1
    &&& states[0] == *before
    &&& forall|i: int|
        0 < i < states.len() ==> settled(
            &states[i - 1],
            #[trigger] &states[i],
            names[i - 1],
        )
}

proof fn lemma_logs_push(
    before: &LsmEngine,
    states: Seq<LsmEngine>,
    es: Seq<BatchEntry>,
    seq: u64,
    next: LsmEngine,
    e: BatchEntry,
)
    requires
        logs_all(before, states, es, seq),
        logged(&states.last(), &next, e.0, batch_record(e, seq)),
    ensures
        logs_all(before, states.push(next), es.push(e), seq),
{
    let more = states.push(next);
    let all = es.push(e);
    assert forall|i: int| 0 < i < more.len() implies logged(
        &more[i - 1],
        #[trigger] &more[i],
        all[i - 1].0,
        batch_record(all[i - 1], seq),
    ) by {
        if i < states.len() {
            assert(more[i] == states[i]);
            assert(more[i - 1] == states[i - 1]);
            assert(all[i - 1] == es[i - 1]);
        }
    }
}

proof fn lemma_settles_push(
    before: &LsmEngine,
    states: Seq<LsmEngine>,
    names: Seq<Seq<char>>,
    next: LsmEngine,
    name: Seq<char>,
)
    requires
        settles_all(before, states, names),
        settled(&states.last(), &next, name),
    ensures
        settles_all(before, states.push(next), names.push(name)),
{
    let more = states.push(next);
    let all = names.push(name);
    assert forall|i: int| 0 < i < more.len() implies settled(
        &more[i - 1],
        #[trigger] &more[i],
        all[i - 1],
    ) by {
        if i < states.len() {
            assert(more[i] == states[i]);
            assert(more[i - 1] == states[i - 1]);
            assert(all[i - 1] == names[i - 1]);
        }
    }
}

proof fn lemma_logs_from(
    before: &LsmEngine,
    numbered: &LsmEngine,
    states: Seq<LsmEngine>,
    es: Seq<BatchEntry>,
    seq: u64,
)
    requires
        es.len() > 0,
        logs_all(numbered, states, es, seq),
        logged(before, &states[1], es[0].0, batch_record(es[0], seq)),
    ensures
        logs_all(before, states.update(0, *before), es, seq),
        states.update(0, *before).last() == states.last(),
{
    let from = states.update(0, *before);
    assert forall|i: int| 0 < i < from.len() implies logged(
        &from[i - 1],
        #[trigger] &from[i],
        es[i - 1].0,
        batch_record(es[i - 1], seq),
    ) by {
        assert(from[i] == states[i]);
        if i > 1 {
            assert(from[i - 1] == states[i - 1]);
        }
    }
}

/// A batch was written once its entries were logged and every family was settled.
proof fn lemma_wrote_all(
    before: &LsmEngine,
    mid: &LsmEngine,
    after: &LsmEngine,
    es: Seq<BatchEntry>,
    logs: Seq<LsmEngine>,
    rest: Seq<LsmEngine>,
)
    requires
        es.len() > 0,
        before.wf(),
        kept(before, mid),
        kept(mid, after),
        crash_safe(mid, after),
        after.next_seq() == before.next_seq() + 1,
        mid.queued() == before.queued().push(
            Op::AppendAll(batch_parts(es, before.next_seq())),
        ),
        forall|cf: Seq<char>|
            before.has_cf(cf) ==> #[trigger] mid.contents(cf) == batch_written(
                before.contents(cf),
                es,
                cf,
                before.next_seq(),
            ),
        forall|cf: Seq<char>|
            mid.has_cf(cf) ==> #[trigger] after.contents(cf) == mid.contents(cf),
        logs_all(before, logs, es, before.next_seq()),
        requeued(&logs.last(), mid),
        settles_all(mid, rest, before.families()),
        rest.last() == *after,
    ensures
        wrote_all(before, after, es),
{
    let q = before.queued().len() as int;
    lemma_kept(before, mid, after);
    before.lemma_one_op_safe(mid, Op::AppendAll(batch_parts(es, before.next_seq())));
    assert forall|cf: Seq<char>| mid.has_cf(cf) implies live(#[trigger] mid.contents(cf)) == live(
        after.contents(cf),
    ) by {
        assert(after.contents(cf) == mid.contents(cf));
    }
    lemma_crash_steps(before, mid, after);
    assert(after.queued()[q] == mid.queued()[q]) by {
        assert(after.queued().subrange(0, mid.queued().len() as int)[q] == after.queued()[q]);
    }
    assert forall|cf: Seq<char>| before.has_cf(cf) implies #[trigger] after.contents(cf)
        == batch_written(before.contents(cf), es, cf, before.next_seq()) by {
        assert(mid.has_cf(cf));
        assert(mid.contents(cf) == batch_written(
            before.contents(cf),
            es,
            cf,
            before.next_seq(),
        ));
    }
}

impl LsmEngine {
    /// What holds of families by position holds of them by name.
    proof fn lemma_by_name(&self, after: &LsmEngine, i: int)
        requires
            families_distinct(self.families@),
            after.families@.len() == self.families@.len(),
            0 <= i < self.families@.len(),
            forall|j: int|
                0 <= j < self.families@.len() ==> (#[trigger] after.families@[j]).name@
                    == self.families@[j].name@,
            forall|j: int|
                0 <= j < self.families@.len() && j != i ==> (
                #[trigger] after.families@[j]).contents() == self.families@[j].contents(),
            forall|j: int|
                0 <= j < self.families@.len() ==> (#[trigger] after.families@[j]).buried@
                    == self.families@[j].buried@,
        ensures
            after.families() == self.families(),
            forall|cf: Seq<char>|
                self.has_cf(cf) ==> #[trigger] after.family(cf).buried@ == self.family(cf).buried@,
            self.contents(self.families@[i].name@) == self.families@[i].contents(),
            after.contents(self.families@[i].name@) == after.families@[i].contents(),
            forall|cf: Seq<char>|
                self.has_cf(cf) && cf != self.families@[i].name@ ==> #[trigger] after.contents(cf)
                    == self.contents(cf),
    {
        assert(family_names(after.families@) =~= family_names(self.families@));
        assert forall|a: int, b: int| 0 <= a < b < after.families@.len() implies (
        #[trigger] after.families@[a]).name@ != (#[trigger] after.families@[b]).name@ by {
            assert(self.families@[a].name@ != self.families@[b].name@);
        }
        self.lemma_at(i);
        after.lemma_at(i);
        assert forall|cf: Seq<char>|
            self.has_cf(cf) && cf != self.families@[i].name@ implies #[trigger] after.contents(cf)
            == self.contents(cf) by {
            let x = choose|x: int| 0 <= x < self.families().len() && self.families()[x] == cf;
            self.lemma_at(x);
            after.lemma_at(x);
        }
        assert forall|cf: Seq<char>| self.has_cf(cf) implies #[trigger] after.family(cf).buried@
            == self.family(cf).buried@ by {
            let x = choose|x: int| 0 <= x < self.families().len() && self.families()[x] == cf;
            self.lemma_at(x);
            after.lemma_at(x);
        }
    }

    /// Flush the memtable of family `i` if it is full, and start a compaction if
    /// none is under way and there is something to compact. Once every number for
    /// a file name was used, neither is done any more.
    fn maybe_flush_and_compact(&mut self, i: usize)
        requires
            old(self).wf(),
            i < old(self).families@.len(),
        ensures
            kept(old(self), final(self)),
            final(self).families@.len() == old(self).families@.len(),
            forall|j: int|
                0 <= j < old(self).families@.len() ==> (#[trigger] final(self).families@[j]).name@
                    == old(self).families@[j].name@,
            forall|j: int|
                0 <= j < old(self).families@.len() ==> (
                #[trigger] final(self).families@[j]).contents() == old(
                    self,
                ).families@[j].contents(),
            forall|j: int|
                0 <= j < old(self).families@.len() ==> (#[trigger] final(self).families@[j]).buried@
                    == old(self).families@[j].buried@,
            final(self).write_seq == old(self).write_seq,
            crash_safe(old(self), final(self)),
            settled(old(self), final(self), old(self).families@[i as int].name@),
    {
        let ghost before = *self;
        assert forall|j: int| 0 <= j < before.families@.len() implies grown(
            #[trigger] before.families@[j],
            before.families@[j],
        ) by {
            lemma_grown_same(before.families@[j], before.families@[j]);
        }
        if self.families[i].mem.size_bytes() >= MEM_TABLE_SIZE_LIMIT && self.next_file < u64::MAX {
            self.flush_memtable_cf(i);
        }
        let ghost mid = *self;
        proof {
            assert forall|j: int| 0 <= j < before.families@.len() implies grown(
                #[trigger] before.families@[j],
                mid.families@[j],
            ) by {}
            assert(before.queued().is_prefix_of(mid.queued()));
            if mid.queued() == before.queued() {
                before.lemma_no_op_safe(&mid);
            }
        }
        if self.in_flight.is_none() && self.next_file < u64::MAX {
            self.try_schedule_compaction();
        }
        proof {
            before.lemma_by_name(self, i as int);
            if before.in_flight is Some {
                before.lemma_job_kept(self);
            }
            mid.lemma_no_op_safe(self);
            mid.lemma_by_name(self, i as int);
            lemma_crash_steps(&before, &mid, self);
            before.lemma_settled(&mid, self, i as int);
        }
    }

    /// The steps that follow a write, by name.
    proof fn lemma_settled(&self, mid: &LsmEngine, after: &LsmEngine, i: int)
        requires
            families_distinct(self.families@),
            0 <= i < self.families@.len(),
            mid.families@.len() == self.families@.len(),
            forall|j: int|
                0 <= j < self.families@.len() ==> (#[trigger] mid.families@[j]).name@
                    == self.families@[j].name@,
            forall|j: int|
                0 <= j < self.families@.len() && j != i ==> (#[trigger] mid.families@[j])
                    == self.families@[j],
            after.families == mid.families,
            after.queued() == mid.queued(),
            mid.in_flight == self.in_flight,
            mid.handed_out == self.handed_out,
            ({
                let a = self.families@[i];
                let b = mid.families@[i];
                if a.mem.size() >= MEM_TABLE_SIZE_LIMIT && self.next_file < u64::MAX {
                    let t = b.levels@[0]@.last();
                    &&& t.wf()
                    &&& t.name() == table_name(0, self.next_file as nat)
                    &&& t.level() == 0
                    &&& t.entries() == a.mem.pairs()
                    &&& !t.is_damaged()
                    &&& grown(a, b)
                    &&& b.levels@[0]@ == a.levels@[0]@.push(t)
                    &&& b.mem@ == Map::<Seq<u8>, Version>::empty()
                    &&& b.mem.size() == 0
                    &&& b.wal@ == Seq::<u8>::empty()
                    &&& mid.queued() == self.queued() + flush_ops(a.name@, t)
                    &&& mid.next_file == self.next_file + 1
                } else {
                    b == a && mid.queued() == self.queued() && mid.next_file == self.next_file
                }
            }),
            if self.in_flight is None && mid.next_file < u64::MAX {
                match after.in_flight {
                    Some(job) => {
                        &&& !after.handed_out
                        &&& after.next_file == mid.next_file + 1
                        &&& exists|x: int|
                            #[trigger] mid.first_to_compact(x) && is_job_for(
                                job,
                                mid.families@[x],
                                level_to_compact(mid.families@[x])->0,
                                mid.next_file,
                            )
                    },
                    None => {
                        &&& after.handed_out == mid.handed_out
                        &&& after.next_file == mid.next_file
                        &&& forall|x: int|
                            0 <= x < mid.families@.len() ==> level_to_compact(
                                #[trigger] mid.families@[x],
                            ) is None
                    },
                }
            } else {
                &&& after.in_flight == self.in_flight
                &&& after.handed_out == mid.handed_out
                &&& after.next_file == mid.next_file
            },
        ensures
            settled(self, after, self.families@[i].name@),
    {
        let cf = self.families@[i].name@;
        assert(family_names(after.families@) =~= family_names(self.families@));
        assert forall|a: int, b: int| 0 <= a < b < after.families@.len() implies (
        #[trigger] after.families@[a]).name@ != (#[trigger] after.families@[b]).name@ by {
            assert(self.families@[a].name@ != self.families@[b].name@);
        }
        self.lemma_at(i);
        after.lemma_at(i);
        assert forall|other: Seq<char>|
            self.has_cf(other) && other != cf implies #[trigger] after.family(other)
            == self.family(other) by {
            let x = choose|x: int| 0 <= x < self.families().len() && self.families()[x] == other;
            self.lemma_at(x);
            after.lemma_at(x);
        }
        assert forall|x: int| 0 <= x < after.families@.len() implies after.family(
            #[trigger] after.families()[x],
        ) == after.families@[x] by {
            after.lemma_at(x);
        }
        if self.in_flight is None && mid.next_file < u64::MAX {
            match after.in_flight {
                Some(job) => {
                    let x = choose|x: int|
                        #[trigger] mid.first_to_compact(x) && is_job_for(
                            job,
                            mid.families@[x],
                            level_to_compact(mid.families@[x])->0,
                            mid.next_file,
                        );
                    assert(mid.first_to_compact(x));
                    assert(after.family(after.families()[x]) == mid.families@[x]);
                    assert forall|j: int| 0 <= j < x implies level_to_compact(
                        after.family(#[trigger] after.families()[j]),
                    ) is None by {
                        assert(level_to_compact(mid.families@[j]) is None);
                    }
                    assert(compacts_first(after, x));
                    assert(compaction_due(after));
                },
                None => {
                    assert forall|x: int| 0 <= x < after.families().len() implies level_to_compact(
                        after.family(#[trigger] after.families()[x]),
                    ) is None by {
                        assert(level_to_compact(mid.families@[x]) is None);
                    }
                    assert(!compaction_due(after));
                },
            }
        }
    }

    /// Take the next sequence number.
    fn next_number(&mut self) -> (seq: u64)
        requires
            old(self).wf(),
            old(self).has_room(),
        ensures
            seq == old(self).write_seq,
            kept(old(self), final(self)),
            final(self).families == old(self).families,
            final(self).write_seq == old(self).write_seq + 1,
            final(self).queued() == old(self).queued(),
            final(self).next_file == old(self).next_file,
            final(self).in_flight == old(self).in_flight,
            final(self).handed_out == old(self).handed_out,
    {
        let ghost before = *self;
        let seq: u64 = self.write_seq;
        self.write_seq = self.write_seq + 1;
        proof {
            let es = recovered_edits(self.manifest@);
            assert forall|a: int| 0 <= a < self.families@.len() implies family_ok(
                #[trigger] self.families@[a],
                self.disk(),
                files_of(es, self.families@[a].name@),
                self.write_seq,
                self.next_file,
            ) by {
                lemma_family_frame(
                    before.families@[a],
                    before.disk(),
                    self.disk(),
                    files_of(es, self.families@[a].name@),
                    before.write_seq,
                    before.next_file,
                    self.write_seq,
                    self.next_file,
                );
            }
        }
        seq
    }

    /// Log a record for family `i` and apply it.
    fn log_one(&mut self, i: usize, rec: WalRecord)
        requires
            old(self).wf(),
            i < old(self).families@.len(),
            fits(rec@),
            rec@.seq() < old(self).write_seq,
        ensures
            kept(old(self), final(self)),
            final(self).families@.len() == old(self).families@.len(),
            final(self).contents(old(self).families@[i as int].name@) == written(
                old(self).contents(old(self).families@[i as int].name@),
                rec@,
            ),
            forall|other: Seq<char>|
                old(self).has_cf(other) && other != old(self).families@[i as int].name@
                    ==> #[trigger] final(self).contents(other) == old(self).contents(other),
            final(self).write_seq == old(self).write_seq,
            final(self).queued() == old(self).queued().push(
                Op::Append(FileId::Wal(old(self).families@[i as int].name@), frame(rec@)),
            ),
            crash_safe(old(self), final(self)),
            logged(old(self), final(self), old(self).families@[i as int].name@, rec@),
    {
        let ghost before = *self;
        let ghost op = Op::Append(FileId::Wal(self.families@[i as int].name@), frame(rec@));
        self.log(i, rec);
        proof {
            assert forall|j: int| 0 <= j < before.families@.len() implies grown(
                #[trigger] before.families@[j],
                self.families@[j],
            ) by {
                lemma_grown_same(before.families@[j], self.families@[j]);
            }
            before.lemma_by_name(self, i as int);
            before.lemma_job_kept(self);
            before.lemma_one_op_safe(self, op);
            before.lemma_at(i as int);
            self.lemma_at(i as int);
            let cf = before.families@[i as int].name@;
            assert forall|other: Seq<char>|
                before.has_cf(other) && other != cf implies #[trigger] self.family(other)
                == before.family(other) by {
                let x = choose|x: int|
                    0 <= x < before.families().len() && before.families()[x] == other;
                before.lemma_at(x);
                self.lemma_at(x);
            }
        }
    }

    /// To take a number changes nothing else.
    proof fn lemma_logged_numbered(
        &self,
        numbered: &LsmEngine,
        after: &LsmEngine,
        cf: Seq<char>,
        r: Record,
    )
        requires
            numbered.families == self.families,
            numbered.queued() == self.queued(),
            numbered.next_file == self.next_file,
            numbered.in_flight == self.in_flight,
            numbered.handed_out == self.handed_out,
            logged(numbered, after, cf, r),
        ensures
            logged(self, after, cf, r),
    {
        assert forall|other: Seq<char>|
            self.has_cf(other) && other != cf implies #[trigger] after.family(other)
            == self.family(other) by {
            assert(numbered.has_cf(other));
            assert(numbered.family(other) == self.family(other));
        }
    }

    /// Write a record to family `i`.
    #[verifier::rlimit(40)]
    fn write(&mut self, i: usize, rec: WalRecord)
        requires
            old(self).wf(),
            old(self).has_room(),
            i < old(self).families@.len(),
            fits(rec@),
            rec@.seq() == old(self).next_seq(),
        ensures
            wrote(old(self), final(self), old(self).families@[i as int].name@, rec@),
    {
        let ghost before = *self;
        let ghost r = rec@;
        let seq: u64 = self.next_number();
        let ghost numbered = *self;
        self.log_one(i, rec);
        let ghost mid = *self;
        self.maybe_flush_and_compact(i);
        proof {
            before.lemma_at(i as int);
            mid.lemma_by_name(self, i as int);
            lemma_kept(&before, &mid, self);
            before.lemma_logged_numbered(&numbered, &mid, before.families@[i as int].name@, r);
            lemma_crash_steps(&numbered, &mid, self);
            assert forall|k: int| before.queued().len() <= k <= self.queued().len() implies
                recovers(#[trigger] disk_after(self, k), &before) || recovers(
                disk_after(self, k),
                self,
            ) by {
                if recovers(disk_after(self, k), &numbered) {
                    assert forall|cf: Seq<char>| before.has_cf(cf) implies live(
                        #[trigger] stored(disk_after(self, k), cf),
                    ) == live(before.contents(cf)) by {
                        assert(numbered.has_cf(cf));
                        assert(numbered.contents(cf) == before.contents(cf));
                    }
                }
            }
        }
    }

    /// Whether every entry of a batch is for a family that there is.
    fn all_known(&self, batch: &WriteBatch) -> (r: bool)
        ensures
            r == (forall|i: int| 0 <= i < batch@.len() ==> self.has_cf((#[trigger] batch@[i]).0)),
    {
        let n: usize = batch.len();
        let mut i: usize = 0;
        while i < n
            invariant
                i <= n,
                n == batch@.len(),
                forall|j: int| 0 <= j < i ==> self.has_cf((#[trigger] batch@[j]).0),
            decreases n - i,
        {
            if self.find(batch.cf_at(i).as_str()).is_none() {
                assert(!self.has_cf(batch@[i as int].0));
                return false;
            }
            i = i + 1;
        }
        true
    }

    /// Log an entry of a batch and apply it.
    fn log_entry(&mut self, batch: &WriteBatch, i: usize, seq: u64)
        requires
            old(self).wf(),
            i < batch@.len(),
            old(self).has_cf(batch@[i as int].0),
            fits(batch_record(batch@[i as int], seq)),
            seq < old(self).write_seq,
        ensures
            kept(old(self), final(self)),
            final(self).write_seq == old(self).write_seq,
            final(self).families@.len() == old(self).families@.len(),
            final(self).contents(batch@[i as int].0) == written(
                old(self).contents(batch@[i as int].0),
                batch_record(batch@[i as int], seq),
            ),
            forall|other: Seq<char>|
                old(self).has_cf(other) && other != batch@[i as int].0
                    ==> #[trigger] final(self).contents(other) == old(self).contents(other),
            final(self).queued() == old(self).queued().push(
                Op::Append(
                    FileId::Wal(batch@[i as int].0),
                    frame(batch_record(batch@[i as int], seq)),
                ),
            ),
            logged(
                old(self),
                final(self),
                batch@[i as int].0,
                batch_record(batch@[i as int], seq),
            ),
    {
        let at: usize = match self.find(batch.cf_at(i).as_str()) {
            Some(at) => at,
            None => {
                assert(false);
                0
            },
        };
        let key: Vec<u8> = copy_bytes(batch.key_at(i).as_slice());
        let rec: WalRecord = match batch.value_at(i) {
            Some(v) => WalRecord::Put { key, seq, value: copy_bytes(v.as_slice()) },
            None => WalRecord::Delete { key, seq },
        };
        assert(rec@ == batch_record(batch@[i as int], seq));
        self.log_one(at, rec);
    }

    /// Log the entries of a batch and apply them.
    #[verifier::rlimit(40)]
    fn log_batch(&mut self, batch: &WriteBatch, seq: u64, Ghost(start): Ghost<LsmEngine>) -> (r:
        Ghost<Seq<LsmEngine>>)
        requires
            kept(&start, old(self)),
            seq == start.write_seq,
            old(self).write_seq == start.write_seq + 1,
            old(self).families == start.families,
            old(self).queued() == start.queued(),
            batch_fits(batch@),
            forall|i: int| 0 <= i < batch@.len() ==> start.has_cf((#[trigger] batch@[i]).0),
        ensures
            kept(&start, final(self)),
            final(self).write_seq == start.write_seq + 1,
            final(self).families@.len() == start.families@.len(),
            final(self).queued().len() == start.queued().len() + batch@.len(),
            forall|j: int|
                0 <= j < batch@.len() ==> final(self).queued()[start.queued().len() + j]
                    == Op::Append(
                    FileId::Wal((#[trigger] batch@[j]).0),
                    frame(batch_record(batch@[j], seq)),
                ),
            forall|cf: Seq<char>|
                start.has_cf(cf) ==> #[trigger] final(self).contents(cf) == batch_written(
                    start.contents(cf),
                    batch@,
                    cf,
                    seq,
                ),
            logs_all(old(self), r@, batch@, seq),
            r@.last() == *final(self),
    {
        let ghost es = batch@;
        let ghost q = start.queued().len();
        let n: usize = batch.len();
        let mut i: usize = 0;
        assert(es.take(0) =~= Seq::<BatchEntry>::empty());
        let ghost mut states: Seq<LsmEngine> = seq![*self];
        assert forall|cf: Seq<char>| start.has_cf(cf) implies #[trigger] self.contents(cf)
            == start.contents(cf) by {}
        while i < n
            invariant
                i <= n,
                n == es.len(),
                es == batch@,
                batch_fits(es),
                seq < self.write_seq,
                seq == start.write_seq,
                self.write_seq == start.write_seq + 1,
                self.families@.len() == start.families@.len(),
                kept(&start, self),
                q == start.queued().len(),
                self.queued().len() == q + i,
                forall|j: int| 0 <= j < n ==> start.has_cf((#[trigger] es[j]).0),
                forall|j: int|
                    0 <= j < i ==> self.queued()[q + j] == Op::Append(
                        FileId::Wal((#[trigger] es[j]).0),
                        frame(batch_record(es[j], seq)),
                    ),
                forall|cf: Seq<char>|
                    start.has_cf(cf) ==> #[trigger] self.contents(cf) == batch_written(
                        start.contents(cf),
                        es.take(i as int),
                        cf,
                        seq,
                    ),
                logs_all(old(self), states, es.take(i as int), seq),
                states.last() == *self,
            decreases n - i,
        {
            let ghost mid = *self;
            let ghost e = es[i as int];
            proof {
                let t = es.take(i + 1);
                assert(t.drop_last() =~= es.take(i as int));
                assert(t.last() == e);
                assert(fits(batch_record(e, 0)));
                assert(start.has_cf(e.0));
                assert(fits(batch_record(e, seq)));
                assert(self.has_cf(e.0));
            }
            self.log_entry(batch, i, seq);
            proof {
                lemma_kept(&start, &mid, self);
                lemma_logs_push(old(self), states, es.take(i as int), seq, *self, e);
                assert(es.take(i as int).push(e) =~= es.take(i + 1));
                states = states.push(*self);
            }
            i = i + 1;
        }
        assert(es.take(n as int) =~= es);
        Ghost(states)
    }

    /// Make one operation of the appends that were queued from position `q` on.
    fn join_appends(&mut self, q: usize, Ghost(parts): Ghost<Seq<(FileId, Seq<u8>)>>)
        requires
            old(self).wf(),
            q <= old(self).queued().len(),
            old(self).queued() == old(self).queued().take(q as int) + appends_of(parts),
        ensures
            final(self).wf(),
            final(self).disk() == old(self).disk(),
            final(self).synced() == old(self).synced(),
            final(self).queued() == old(self).queued().take(q as int).push(Op::AppendAll(parts)),
            final(self).families == old(self).families,
            final(self).write_seq == old(self).write_seq,
            final(self).next_file == old(self).next_file,
            final(self).in_flight == old(self).in_flight,
            final(self).handed_out == old(self).handed_out,
    {
        let ghost all = op_views(self.ops@);
        let ghost base = all.take(q as int);
        let mut left: Vec<FileOp> = self.ops.split_off(q);
        let ghost n = left@.len() as int;
        let ghost tail = left@;
        assert(op_views(self.ops@) =~= base);
        assert forall|i: int| 0 <= i < n implies (#[trigger] tail[i])@ == Op::Append(
            parts[i].0,
            parts[i].1,
        ) by {
            assert(all[q + i] == tail[i]@);
            assert(all[q + i] == appends_of(parts)[i]);
        }
        assert(n == parts.len());
        reverse(&mut left);
        let mut joined: Vec<(FileName, Vec<u8>)> = Vec::new();
        while left.len() > 0
            invariant
                n == parts.len(),
                tail.len() == n,
                left@.len() <= n,
                forall|i: int| 0 <= i < left@.len() ==> (#[trigger] left@[i]) == tail[n - 1 - i],
                forall|i: int|
                    0 <= i < n ==> (#[trigger] tail[i])@ == Op::Append(parts[i].0, parts[i].1),
                files_view(joined@) =~= parts.take(n - left@.len()),
            decreases left@.len(),
        {
            let ghost i = n - left@.len();
            let ghost before = files_view(joined@);
            match left.pop() {
                Some(op) => {
                    assert(op == tail[i]);
                    match op {
                        FileOp::Append { file, data } => {
                            joined.push((file, data));
                            assert(files_view(joined@) =~= before.push(parts[i]));
                            assert(parts.take(i + 1) =~= parts.take(i).push(parts[i]));
                        },
                        _ => {
                            assert(false);
                        },
                    }
                },
                None => {},
            }
        }
        assert(parts.take(n) =~= parts);
        let one: FileOp = FileOp::AppendAll { parts: joined };
        let ghost o = one@;
        self.ops.push(one);
        proof {
            assert(op_views(self.ops@) =~= base.push(o));
            lemma_append_parts(self.synced@, base, parts);
        }
    }

    /// What was queued when the entries of a batch were logged.
    proof fn lemma_batch_queue(&self, after: &LsmEngine, es: Seq<BatchEntry>, seq: u64)
        requires
            kept(self, after),
            after.queued().len() == self.queued().len() + es.len(),
            forall|j: int|
                0 <= j < es.len() ==> after.queued()[self.queued().len() + j] == Op::Append(
                    FileId::Wal((#[trigger] es[j]).0),
                    frame(batch_record(es[j], seq)),
                ),
        ensures
            after.queued().take(self.queued().len() as int) == self.queued(),
            after.queued() == self.queued() + appends_of(batch_parts(es, seq)),
    {
        let q = self.queued().len() as int;
        assert(after.queued().take(q) =~= after.queued().subrange(0, q));
        assert forall|i: int| 0 <= i < after.queued().len() implies after.queued()[i] == (
        self.queued() + appends_of(batch_parts(es, seq)))[i] by {
            if i < q {
                assert(after.queued().subrange(0, q)[i] == after.queued()[i]);
            } else {
                let j = i - q;
                assert(after.queued()[q + j] == Op::Append(
                    FileId::Wal(es[j].0),
                    frame(batch_record(es[j], seq)),
                ));
            }
        }
        assert(after.queued() =~= self.queued() + appends_of(batch_parts(es, seq)));
    }

    /// An engine of which only the queue is another.
    proof fn lemma_requeued(&self, after: &LsmEngine)
        requires
            after.families == self.families,
            after.write_seq == self.write_seq,
            after.next_file == self.next_file,
            after.in_flight == self.in_flight,
            after.handed_out == self.handed_out,
        ensures
            requeued(self, after),
            forall|cf: Seq<char>| #[trigger] after.contents(cf) == self.contents(cf),
    {
    }

    /// What is kept does not depend on how the new operations are queued.
    proof fn lemma_kept_requeued(&self, mid: &LsmEngine, after: &LsmEngine)
        requires
            kept(self, mid),
            after.wf(),
            requeued(mid, after),
            after.synced() == mid.synced(),
            self.queued().is_prefix_of(after.queued()),
        ensures
            kept(self, after),
    {
        assert forall|t: CompactionTask| self.hands(t) implies #[trigger] after.hands(t) by {
            assert(mid.hands(t));
        }
        assert forall|r: CompactionResult| self.expects(r) implies #[trigger] after.expects(r) by {
            assert(mid.expects(r));
        }
        assert forall|cf: Seq<char>| self.has_cf(cf) implies #[trigger] after.family(cf).buried@
            == self.family(cf).buried@ by {
            assert(mid.family(cf).buried@ == self.family(cf).buried@);
            assert(after.family(cf) == mid.family(cf));
        }
    }

    /// Settle every family.
    fn settle_all(&mut self) -> (r: Ghost<Seq<LsmEngine>>)
        requires
            old(self).wf(),
        ensures
            kept(old(self), final(self)),
            final(self).write_seq == old(self).write_seq,
            forall|cf: Seq<char>|
                old(self).has_cf(cf) ==> #[trigger] final(self).contents(cf) == old(self).contents(
                    cf,
                ),
            crash_safe(old(self), final(self)),
            settles_all(old(self), r@, old(self).families()),
            r@.last() == *final(self),
    {
        let ghost start = *self;
        proof {
            start.lemma_no_op_safe(&start);
        }
        let m: usize = self.families.len();
        let mut k: usize = 0;
        let ghost names = self.families();
        let ghost mut states: Seq<LsmEngine> = seq![*self];
        while k < m
            invariant
                k <= m,
                m == self.families@.len(),
                names.len() == m,
                names == self.families(),
                kept(&start, self),
                self.write_seq == start.write_seq,
                forall|cf: Seq<char>|
                    start.has_cf(cf) ==> #[trigger] self.contents(cf) == start.contents(cf),
                crash_safe(&start, self),
                settles_all(&start, states, names.take(k as int)),
                states.last() == *self,
            decreases m - k,
        {
            let ghost mid = *self;
            self.maybe_flush_and_compact(k);
            proof {
                mid.lemma_by_name(self, k as int);
                lemma_kept(&start, &mid, self);
                lemma_crash_steps(&start, &mid, self);
                assert(names[k as int] == mid.families@[k as int].name@);
                assert(names.take(k + 1) =~= names.take(k as int).push(names[k as int]));
                lemma_settles_push(&start, states, names.take(k as int), *self, names[k as int]);
                states = states.push(*self);
            }
            k = k + 1;
        }
        assert(names.take(m as int) =~= names);
        Ghost(states)
    }

    /// Make all writes of a batch, under one sequence number. If one of its column
    /// families is missing, none of them is made.
    pub fn write_batch(&mut self, batch: WriteBatch) -> (r: Result<(), EngineError>)
        requires
            old(self).wf(),
            old(self).has_room(),
            batch_fits(batch@),
        ensures
            match r {
                Ok(_) => {
                    &&& forall|i: int|
                        0 <= i < batch@.len() ==> old(self).has_cf((#[trigger] batch@[i]).0)
                    &&& wrote_all(old(self), final(self), batch@)
                },
                Err(e) => {
                    &&& e == EngineError::NotFound
                    &&& exists|i: int|
                        0 <= i < batch@.len() && !old(self).has_cf((#[trigger] batch@[i]).0)
                    &&& *final(self) == *old(self)
                },
            },
    {
        let ghost before = *self;
        let ghost es = batch@;
        let n: usize = batch.len();
        if n == 0 {
            proof {
                before.lemma_no_op_safe(&before);
            }
            return Ok(());
        }
        if !self.all_known(&batch) {
            return Err(EngineError::NotFound);
        }
        let q: usize = self.ops.len();
        let seq: u64 = self.next_number();
        let ghost numbered = *self;
        let Ghost(logs) = self.log_batch(&batch, seq, Ghost(before));
        let ghost all_logged = *self;
        let ghost parts = batch_parts(es, seq);
        proof {
            before.lemma_batch_queue(&all_logged, es, seq);
        }
        self.join_appends(q, Ghost(parts));
        let ghost joined = *self;
        proof {
            all_logged.lemma_requeued(&joined);
            before.lemma_kept_requeued(&all_logged, &joined);
        }
        let Ghost(rest) = self.settle_all();
        proof {
            before.lemma_logged_numbered(&numbered, &logs[1], es[0].0, batch_record(es[0], seq));
            lemma_logs_from(&before, &numbered, logs, es, seq);
            lemma_wrote_all(&before, &joined, self, es, logs.update(0, before), rest);
        }
        Ok(())
    }

    /// Write `value` to `key` of the column family `cf`.
    pub fn put_cf(&mut self, cf: &str, key: Vec<u8>, value: Vec<u8>) -> (r: Result<(), EngineError>)
        requires
            old(self).wf(),
            old(self).has_room(),
            key@.len() < 0x1_0000_0000,
            value@.len() < 0x1_0000_0000,
        ensures
            match r {
                Ok(_) => old(self).has_cf(cf@) && wrote(
                    old(self),
                    final(self),
                    cf@,
                    Record::Put { key: key@, seq: old(self).next_seq(), value: value@ },
                ),
                Err(e) => e == EngineError::NotFound && !old(self).has_cf(cf@) && *final(self)
                    == *old(self),
            },
    {
        match self.find(cf) {
            Some(i) => {
                let seq: u64 = self.write_seq;
                self.write(i, WalRecord::Put { key, seq, value });
                Ok(())
            },
            None => Err(EngineError::NotFound),
        }
    }

    /// Write `value` to `key` of the column family `default`.
    pub fn put(&mut self, key: Vec<u8>, value: Vec<u8>) -> (r: Result<(), EngineError>)
        requires
            old(self).wf(),
            old(self).has_room(),
            key@.len() < 0x1_0000_0000,
            value@.len() < 0x1_0000_0000,
        ensures
            match r {
                Ok(_) => old(self).has_cf("default"@) && wrote(
                    old(self),
                    final(self),
                    "default"@,
                    Record::Put { key: key@, seq: old(self).next_seq(), value: value@ },
                ),
                Err(e) => e == EngineError::NotFound && !old(self).has_cf("default"@)
                    && *final(self) == *old(self),
            },
    {
        self.put_cf("default", key, value)
    }

    /// Write `value` to `key` of the column family `cf`. It is seen by readers whose
    /// clock shows less than `expires_at`, and for ever if that is 0.
    pub fn put_until_cf(
        &mut self,
        cf: &str,
        key: Vec<u8>,
        value: Vec<u8>,
        expires_at: u64,
    ) -> (r: Result<(), EngineError>)
        requires
            old(self).wf(),
            old(self).has_room(),
            key@.len() < 0x1_0000_0000,
            value@.len() < 0x1_0000_0000,
        ensures
            match r {
                Ok(_) => old(self).has_cf(cf@) && wrote(
                    old(self),
                    final(self),
                    cf@,
                    Record::PutTtl {
                        key: key@,
                        seq: old(self).next_seq(),
                        value: value@,
                        expires_at,
                    },
                ),
                Err(e) => e == EngineError::NotFound && !old(self).has_cf(cf@) && *final(self)
                    == *old(self),
            },
    {
        match self.find(cf) {
            Some(i) => {
                let seq: u64 = self.write_seq;
                self.write(i, WalRecord::PutTtl { key, seq, value, expires_at });
                Ok(())
            },
            None => Err(EngineError::NotFound),
        }
    }

    /// Write `value` to `key` of the column family `cf`, to expire after `ttl_ms`
    /// milliseconds, or never if that is 0.
    pub fn put_with_ttl_cf(
        &mut self,
        cf: &str,
        key: Vec<u8>,
        value: Vec<u8>,
        ttl_ms: u64,
    ) -> (r: Result<(), EngineError>)
        requires
            old(self).wf(),
            old(self).has_room(),
            key@.len() < 0x1_0000_0000,
            value@.len() < 0x1_0000_0000,
        ensures
            match r {
                Ok(_) => old(self).has_cf(cf@) && exists|now: u64|
                    is_reading(now) && #[trigger] wrote(
                        old(self),
                        final(self),
                        cf@,
                        Record::PutTtl {
                            key: key@,
                            seq: old(self).next_seq(),
                            value: value@,
                            expires_at: expiry(now, ttl_ms),
                        },
                    ),
                Err(e) => e == EngineError::NotFound && !old(self).has_cf(cf@) && *final(self)
                    == *old(self),
            },
    {
        let now: u64 = now_ms();
        self.put_until_cf(cf, key, value, expires_at(now, ttl_ms))
    }

    /// Write `value` to `key` of the column family `default`, to expire after
    /// `ttl_ms` milliseconds, or never if that is 0.
    pub fn put_with_ttl(&mut self, key: Vec<u8>, value: Vec<u8>, ttl_ms: u64) -> (r: Result<
        (),
        EngineError,
    >)
        requires
            old(self).wf(),
            old(self).has_room(),
            key@.len() < 0x1_0000_0000,
            value@.len() < 0x1_0000_0000,
        ensures
            match r {
                Ok(_) => old(self).has_cf("default"@) && exists|now: u64|
                    is_reading(now) && #[trigger] wrote(
                        old(self),
                        final(self),
                        "default"@,
                        Record::PutTtl {
                            key: key@,
                            seq: old(self).next_seq(),
                            value: value@,
                            expires_at: expiry(now, ttl_ms),
                        },
                    ),
                Err(e) => e == EngineError::NotFound && !old(self).has_cf("default"@)
                    && *final(self) == *old(self),
            },
    {
        self.put_with_ttl_cf("default", key, value, ttl_ms)
    }

    /// Delete `key` from the column family `cf`.
    pub fn delete_cf(&mut self, cf: &str, key: Vec<u8>) -> (r: Result<(), EngineError>)
        requires
            old(self).wf(),
            old(self).has_room(),
            key@.len() < 0x1_0000_0000,
        ensures
            match r {
                Ok(_) => old(self).has_cf(cf@) && wrote(
                    old(self),
                    final(self),
                    cf@,
                    Record::Delete { key: key@, seq: old(self).next_seq() },
                ),
                Err(e) => e == EngineError::NotFound && !old(self).has_cf(cf@) && *final(self)
                    == *old(self),
            },
    {
        match self.find(cf) {
            Some(i) => {
                let seq: u64 = self.write_seq;
                self.write(i, WalRecord::Delete { key, seq });
                Ok(())
            },
            None => Err(EngineError::NotFound),
        }
    }

    /// Delete `key` from the column family `default`.
    pub fn delete(&mut self, key: Vec<u8>) -> (r: Result<(), EngineError>)
        requires
            old(self).wf(),
            old(self).has_room(),
            key@.len() < 0x1_0000_0000,
        ensures
            match r {
                Ok(_) => old(self).has_cf("default"@) && wrote(
                    old(self),
                    final(self),
                    "default"@,
                    Record::Delete { key: key@, seq: old(self).next_seq() },
                ),
                Err(e) => e == EngineError::NotFound && !old(self).has_cf("default"@)
                    && *final(self) == *old(self),
            },
    {
        self.delete_cf("default", key)
    }

    /// Delete the keys from `from` up to, not including, `to` from the column
    /// family `cf`.
    pub fn delete_range_cf(&mut self, cf: &str, from: Vec<u8>, to: Vec<u8>) -> (r: Result<
        (),
        EngineError,
    >)
        requires
            old(self).wf(),
            old(self).has_room(),
            from@.len() < 0x1_0000_0000,
            to@.len() < 0x1_0000_0000,
        ensures
            match r {
                Ok(_) => old(self).has_cf(cf@) && wrote(
                    old(self),
                    final(self),
                    cf@,
                    Record::DeleteRange { from: from@, to: to@, seq: old(self).next_seq() },
                ),
                Err(e) => e == EngineError::NotFound && !old(self).has_cf(cf@) && *final(self)
                    == *old(self),
            },
    {
        match self.find(cf) {
            Some(i) => {
                let seq: u64 = self.write_seq;
                self.write(i, WalRecord::DeleteRange { from, to, seq });
                Ok(())
            },
            None => Err(EngineError::NotFound),
        }
    }

    /// Delete the keys from `from` up to, not including, `to` from the column
    /// family `default`.
    pub fn delete_range(&mut self, from: Vec<u8>, to: Vec<u8>) -> (r: Result<(), EngineError>)
        requires
            old(self).wf(),
            old(self).has_room(),
            from@.len() < 0x1_0000_0000,
            to@.len() < 0x1_0000_0000,
        ensures
            match r {
                Ok(_) => old(self).has_cf("default"@) && wrote(
                    old(self),
                    final(self),
                    "default"@,
                    Record::DeleteRange { from: from@, to: to@, seq: old(self).next_seq() },
                ),
                Err(e) => e == EngineError::NotFound && !old(self).has_cf("default"@)
                    && *final(self) == *old(self),
            },
    {
        self.delete_range_cf("default", from, to)
    }

    /// Take the queued operations: the caller performs them on the files, in order.
    pub fn take_ops(&mut self) -> (r: Vec<FileOp>)
        requires
            old(self).wf(),
        ensures
            op_views(r@) == old(self).queued(),
            final(self).queued() == Seq::<Op>::empty(),
            final(self).synced() == old(self).disk(),
            final(self).disk() == old(self).disk(),
            final(self).wf(),
            final(self).families() == old(self).families(),
            forall|cf: Seq<char>| #[trigger] final(self).contents(cf) == old(self).contents(cf),
            forall|cf: Seq<char>| #[trigger] final(self).history(cf) == old(self).history(cf),
            forall|cf: Seq<char>| #[trigger] final(self).family(cf) == old(self).family(cf),
            final(self).file_number() == old(self).file_number(),
            final(self).job() == old(self).job(),
            final(self).next_seq() == old(self).next_seq(),
            final(self).is_compacting() == old(self).is_compacting(),
            final(self).task_ready() == old(self).task_ready(),
            forall|t: CompactionTask| old(self).hands(t) ==> #[trigger] final(self).hands(t),
            forall|x: CompactionResult| old(self).expects(x) ==> #[trigger] final(self).expects(x),
    {
        let ghost d = self.disk();
        let mut ops: Vec<FileOp> = Vec::new();
        std::mem::swap(&mut ops, &mut self.ops);
        self.synced = Ghost(d);
        proof {
            assert(op_views(self.ops@) =~= Seq::<Op>::empty());
        }
        ops
    }
}

} // verus!
