//! What holds of the engine as a whole.

use crate::compact_step::levels_compacted;
use crate::engine::{string_views, CompactionResult, LsmEngine, MEM_TABLE_SIZE_LIMIT};
use crate::engine::crash::{crash_safe, disk_after, recovers};
use crate::engine::open::{is_new, lemma_with_names, opened};
use crate::engine::read::{between, seen};
use crate::engine::write::{compaction_due, flush_due, logged, logs_all, requeued, settled,
    settles_all, wrote, wrote_all};
use crate::error::EngineError;
use crate::family::{lemma_contents, lemma_contents_upto, lemma_levels_upto, level_hides, level_layer,
    level_upto, levels_hide, levels_upto, written_by, CfState, MAX_LEVELS};
use crate::layers::{in_range, lemma_visible_live, live, stack, upto, visible_values, Layer};
use crate::manifest::{edit_fits, edit_frame, files_of, law_torn_edit_is_dropped, recovered_edits,
    Edit};
use crate::recovery::{family_ok, lemma_level_push, level_files, valid_tables, written, FileList};
use crate::snapshot::{batch_record, batch_written, last_entry, law_last_entry_is_last, BatchEntry,
    Snapshot};
use crate::sstable::SSTable;
use crate::storage::{apply_op, apply_ops, content, Disk, FileId, Op};
use crate::stored::{edits_in, families_in, files_in, lemma_family_stored, lemma_reads_alike,
    openable, reads_alike, stored};
use crate::table_format::leads_to;
use crate::wal::{all_fit, fits, frame, law_recovery_returns_what_was_logged,
    law_torn_write_loses_only_itself, log_of, recovered, Record};
use vstd::prelude::*;

verus! {

// ---- reads and writes ------------------------------------------------------------

/// What was put is what is read, whatever the clock shows; other keys read as before.
pub proof fn law_put_then_get(
    before: &LsmEngine,
    after: &LsmEngine,
    cf: Seq<char>,
    key: Seq<u8>,
    seq: u64,
    value: Seq<u8>,
    now: u64,
)
    requires
        wrote(before, after, cf, Record::Put { key, seq, value }),
    ensures
        seen(after.contents(cf), key, now) == Some(value),
        forall|k: Seq<u8>|
            k != key ==> #[trigger] seen(after.contents(cf), k, now) == seen(
                before.contents(cf),
                k,
                now,
            ),
{
}

/// What was deleted is not there; other keys read as before.
pub proof fn law_delete_then_get(
    before: &LsmEngine,
    after: &LsmEngine,
    cf: Seq<char>,
    key: Seq<u8>,
    seq: u64,
    now: u64,
)
    requires
        wrote(before, after, cf, Record::Delete { key, seq }),
    ensures
        seen(after.contents(cf), key, now) is None,
        forall|k: Seq<u8>|
            k != key ==> #[trigger] seen(after.contents(cf), k, now) == seen(
                before.contents(cf),
                k,
                now,
            ),
{
}

/// What was put with an expiry is read until the clock reaches it, and always if it
/// is 0; other keys read as before.
pub proof fn law_expiry(
    before: &LsmEngine,
    after: &LsmEngine,
    cf: Seq<char>,
    key: Seq<u8>,
    seq: u64,
    value: Seq<u8>,
    expires_at: u64,
    now: u64,
)
    requires
        wrote(before, after, cf, Record::PutTtl { key, seq, value, expires_at }),
    ensures
        seen(after.contents(cf), key, now) == (if expires_at == 0 || now < expires_at {
            Some(value)
        } else {
            None
        }),
        forall|k: Seq<u8>|
            k != key ==> #[trigger] seen(after.contents(cf), k, now) == seen(
                before.contents(cf),
                k,
                now,
            ),
{
}

/// Of a deleted range nothing is left; keys outside of it read as before, the upper
/// bound among them.
pub proof fn law_delete_range_then_get(
    before: &LsmEngine,
    after: &LsmEngine,
    cf: Seq<char>,
    from: Seq<u8>,
    to: Seq<u8>,
    seq: u64,
    key: Seq<u8>,
    now: u64,
)
    requires
        wrote(before, after, cf, Record::DeleteRange { from, to, seq }),
    ensures
        seen(after.contents(cf), key, now) == (if in_range(key, from, to) {
            None
        } else {
            seen(before.contents(cf), key, now)
        }),
{
}

/// A write to one column family leaves the others as they were.
pub proof fn law_families_are_apart(
    before: &LsmEngine,
    after: &LsmEngine,
    cf: Seq<char>,
    r: Record,
    other: Seq<char>,
    now: u64,
)
    requires
        wrote(before, after, cf, r),
        before.has_cf(other),
        other != cf,
    ensures
        after.contents(other) == before.contents(other),
        visible_values(after.contents(other), now) == visible_values(before.contents(other), now),
{
}

/// A scan lists the keys of its range that a read finds, with what it finds.
pub proof fn law_scan_agrees_with_get(c: Layer, from: Seq<u8>, to: Seq<u8>, key: Seq<u8>, now: u64)
    ensures
        ({
            let m = between(visible_values(c, now), from, to);
            &&& m.contains_key(key) <==> in_range(key, from, to) && seen(c, key, now) is Some
            &&& m.contains_key(key) ==> seen(c, key, now) == Some(m[key])
        }),
{
}

/// Where the same is live, every reader sees the same. So flushing, compaction and
/// opening the files again, which keep what is live, change no read.
pub proof fn law_reads_depend_on_live(a: Layer, b: Layer, key: Seq<u8>, now: u64)
    requires
        live(a) == live(b),
    ensures
        seen(a, key, now) == seen(b, key, now),
        visible_values(a, now) == visible_values(b, now),
{
    assert forall|k: Seq<u8>| #[trigger] live(a).contains_key(k) == live(b).contains_key(k) by {}
    assert(seen(a, key, now) == seen(b, key, now)) by {
        assert(live(a).contains_key(key) == live(b).contains_key(key));
        if live(a).contains_key(key) {
            assert(live(a)[key] == live(b)[key]);
        }
    }
    lemma_visible_live(a, now);
    lemma_visible_live(b, now);
}

// ---- sequence numbers ------------------------------------------------------------

/// Everything was written under a number below the next one.
pub proof fn law_numbers_grow(e: &LsmEngine, cf: Seq<char>, key: Seq<u8>)
    requires
        e.wf(),
        e.has_cf(cf),
        e.contents(cf).contains_key(key),
    ensures
        e.contents(cf)[key].seq < e.next_seq(),
{
    e.lemma_numbers(cf, key);
}

/// Every record of a log has a number below the next one, so that what is logged later is
/// newer.
pub proof fn law_logged_numbers_are_below_next(e: &LsmEngine, cf: Seq<char>, i: int)
    requires
        e.wf(),
        e.has_cf(cf),
        0 <= i < recovered(e.family(cf).wal@).len(),
    ensures
        recovered(e.family(cf).wal@)[i].seq() < e.next_seq(),
{
    let j = choose|j: int| 0 <= j < e.families().len() && e.families()[j] == cf;
    e.lemma_at(j);
    let fam = e.families@[j];
    assert(family_ok(
        fam,
        e.disk(),
        files_of(recovered_edits(e.manifest@), fam.name@),
        e.write_seq,
        e.next_file,
    ));
}

impl LsmEngine {
    proof fn lemma_numbers(&self, cf: Seq<char>, key: Seq<u8>)
        requires
            self.wf(),
            self.has_cf(cf),
            self.contents(cf).contains_key(key),
        ensures
            self.contents(cf)[key].seq < self.next_seq(),
    {
        let j = choose|j: int| 0 <= j < self.families().len() && self.families()[j] == cf;
        self.lemma_at(j);
        let fam = self.families@[j];
        assert(family_ok(
            fam,
            self.disk(),
            files_of(recovered_edits(self.manifest@), fam.name@),
            self.write_seq,
            self.next_file,
        ));
        let m = (self.write_seq - 1) as u64;
        lemma_contents_upto(&fam, m);
        lemma_upto_written(fam.levels@, 0, m);
        lemma_contents(&fam);
        assert(fam.contents().contains_key(key));
        if fam.mem@.contains_key(key) {
            assert(fam.mem@[key].seq <= m);
        } else {
            lemma_levels_upto(fam.levels@, 0, m);
            assert(fam.tables()[key].seq <= m);
        }
    }
}

impl LsmEngine {
    /// The history of a family is what it holds and deletions besides, all of them with
    /// numbers below that of the next write.
    pub proof fn law_history_adds_only_deletions(&self, cf: Seq<char>)
        requires
            self.wf(),
            self.has_cf(cf),
        ensures
            self.contents(cf).submap_of(self.history(cf)),
            live(self.history(cf)) == live(self.contents(cf)),
            forall|k: Seq<u8>| #[trigger]
                self.history(cf).contains_key(k) ==> self.history(cf)[k].seq < self.next_seq(),
    {
        let j = choose|j: int| 0 <= j < self.families().len() && self.families()[j] == cf;
        self.lemma_at(j);
        let fam = self.families@[j];
        assert(family_ok(
            fam,
            self.disk(),
            files_of(recovered_edits(self.manifest@), fam.name@),
            self.write_seq,
            self.next_file,
        ));
        let c = self.contents(cf);
        assert forall|k: Seq<u8>| #[trigger] self.history(cf).contains_key(k) implies self.history(
            cf,
        )[k].seq < self.next_seq() by {
            if c.contains_key(k) {
                self.lemma_numbers(cf, k);
            } else {
                assert(fam.buried@[k].seq <= (self.write_seq - 1) as u64);
            }
        }
        assert(live(self.history(cf)) =~= live(c));
    }
}

proof fn lemma_level_upto_written(files: Seq<SSTable>, m: u64)
    ensures
        written_by(level_upto(files, m), m),
    decreases files.len(),
{
    let layers = files.map_values(|t: SSTable| upto(t@, m));
    lemma_stack_written(layers, m);
}

proof fn lemma_stack_written(layers: Seq<Layer>, m: u64)
    requires
        forall|i: int| 0 <= i < layers.len() ==> written_by(#[trigger] layers[i], m),
    ensures
        written_by(stack(layers), m),
    decreases layers.len(),
{
    if layers.len() > 0 {
        let less = layers.drop_last();
        assert forall|i: int| 0 <= i < less.len() implies written_by(#[trigger] less[i], m) by {
            assert(less[i] == layers[i]);
        }
        lemma_stack_written(less, m);
        assert(written_by(layers[layers.len() - 1], m));
    }
}

proof fn lemma_upto_written(levels: Seq<Vec<SSTable>>, l: int, m: u64)
    requires
        0 <= l <= levels.len(),
    ensures
        written_by(levels_upto(levels, l, m), m),
    decreases levels.len() - l,
{
    if l < levels.len() {
        lemma_upto_written(levels, l + 1, m);
        lemma_level_upto_written(levels[l]@, m);
    }
}

/// A snapshot shows what could be read when it was taken, and what is written
/// afterwards has a larger number than the one that it is pinned at.
pub proof fn law_snapshot_precedes_later_writes(
    before: &LsmEngine,
    after: &LsmEngine,
    s: &Snapshot,
    cf: Seq<char>,
    r: Record,
    key: Seq<u8>,
    now: u64,
)
    requires
        before.wf(),
        before.has_cf(cf),
        s.pinned() + 1 == before.next_seq(),
        s@ == visible_values(before.contents(cf), now),
        wrote(before, after, cf, r),
        r.seq() == before.next_seq(),
    ensures
        s@.contains_key(key) <==> seen(before.contents(cf), key, now) is Some,
        s@.contains_key(key) ==> seen(before.contents(cf), key, now) == Some(s@[key]),
        // what the snapshot does not show was written after it
        after.contents(cf).contains_key(key) ==> after.contents(cf)[key].seq > s.pinned() || (
        before.contents(cf).contains_key(key) && after.contents(cf)[key] == before.contents(
            cf,
        )[key]),
{
}

// ---- batches ---------------------------------------------------------------------

/// A batch leaves of a key what it held, or its own last write to it.
pub proof fn lemma_batch_key(c: Layer, es: Seq<BatchEntry>, cf: Seq<char>, seq: u64, key: Seq<u8>)
    ensures
        ({
            let after = batch_written(c, es, cf, seq);
            match last_entry(es, cf, key) {
                Some(e) => after.contains_key(key) && after[key].seq == seq
                    && after[key].expires_at == 0 && after[key].value == e.2,
                None => after.contains_key(key) == c.contains_key(key) && (c.contains_key(key)
                    ==> after[key] == c[key]),
            }
        }),
    decreases es.len(),
{
    if es.len() > 0 {
        lemma_batch_key(c, es.drop_last(), cf, seq, key);
    }
}

/// All writes of a batch are seen after it, the last one of each key, and all of
/// them have the same number.
pub proof fn law_batch_is_seen_whole(
    before: &LsmEngine,
    after: &LsmEngine,
    es: Seq<BatchEntry>,
    cf: Seq<char>,
    key: Seq<u8>,
    now: u64,
)
    requires
        wrote_all(before, after, es),
        before.has_cf(cf),
    ensures
        match last_entry(es, cf, key) {
            Some(e) => {
                &&& seen(after.contents(cf), key, now) == e.2
                &&& after.contents(cf)[key].seq == before.next_seq()
            },
            None => seen(after.contents(cf), key, now) == seen(before.contents(cf), key, now),
        },
{
    lemma_batch_key(before.contents(cf), es, cf, before.next_seq(), key);
}

/// A reader who is pinned below the number of a batch sees nothing of it: what was
/// written no later than that was there before the batch.
pub proof fn law_batch_is_unseen_whole(
    before: &LsmEngine,
    after: &LsmEngine,
    es: Seq<BatchEntry>,
    cf: Seq<char>,
    pinned: u64,
)
    requires
        wrote_all(before, after, es),
        before.has_cf(cf),
        pinned < before.next_seq(),
    ensures
        upto(after.contents(cf), pinned).submap_of(before.contents(cf)),
{
    let a = upto(after.contents(cf), pinned);
    assert forall|k: Seq<u8>| #[trigger] a.dom().contains(k) implies before.contents(
        cf,
    ).dom().contains(k) && before.contents(cf)[k] == a[k] by {
        lemma_batch_key(before.contents(cf), es, cf, before.next_seq(), k);
    }
}

// ---- damage ----------------------------------------------------------------------

proof fn lemma_level_hides(files: Seq<SSTable>, key: Seq<u8>, n: int)
    requires
        n <= files.len(),
        forall|i: int| 0 <= i < files.len() ==> !(#[trigger] files[i]).is_damaged(),
    ensures
        !level_hides(files, key, n),
    decreases n,
{
    if n > 0 {
        lemma_level_hides(files, key, n - 1);
        let t = files[n - 1];
        if t.hides(key) {
            let j = choose|j: int| #[trigger] leads_to(t.index(), key, j) && t.part(j) is None;
            assert(t.part(j) is None);
            assert(t.is_damaged());
        }
    }
}

proof fn lemma_levels_hide(levels: Seq<Vec<SSTable>>, key: Seq<u8>, l: int)
    requires
        0 <= l,
        forall|a: int, i: int|
            0 <= a < levels.len() && 0 <= i < levels[a]@.len() ==> !(
            #[trigger] levels[a]@[i]).is_damaged(),
    ensures
        !levels_hide(levels, key, l),
    decreases levels.len() - l,
{
    if l < levels.len() {
        lemma_levels_hide(levels, key, l + 1);
        let files = levels[l]@;
        assert forall|i: int| 0 <= i < files.len() implies !(#[trigger] files[i]).is_damaged() by {
            assert(!levels[l]@[i].is_damaged());
        }
        lemma_level_hides(files, key, files.len() as int);
    }
}

/// Where no block is damaged, every key can be looked up.
pub proof fn law_undamaged_hides_nothing(e: &LsmEngine, cf: Seq<char>, key: Seq<u8>)
    requires
        !e.is_damaged(cf),
    ensures
        !e.hides(cf, key),
{
    lemma_levels_hide(e.family(cf).levels@, key, 0);
}

/// What follows a write damages nothing.
proof fn lemma_settled_undamaged(mid: &LsmEngine, after: &LsmEngine, to: Seq<char>, cf: Seq<char>)
    requires
        settled(mid, after, to),
        mid.has_cf(cf),
        !mid.is_damaged(cf),
    ensures
        !after.is_damaged(cf),
{
    let a = mid.family(cf);
    let b = after.family(cf);
    if cf == to && flush_due(mid, cf) {
        assert forall|l: int, i: int|
            0 <= l < b.levels@.len() && 0 <= i < b.levels@[l]@.len() implies !(
        #[trigger] b.levels@[l]@[i]).is_damaged() by {
            if l > 0 || i < a.levels@[0]@.len() {
                assert(b.levels@[l]@[i] == a.levels@[l]@[i]);
            }
        }
    }
}

/// No write damages a block.
pub proof fn law_write_damages_nothing(
    before: &LsmEngine,
    after: &LsmEngine,
    to: Seq<char>,
    r: Record,
    cf: Seq<char>,
)
    requires
        wrote(before, after, to, r),
        before.has_cf(cf),
        !before.is_damaged(cf),
    ensures
        !after.is_damaged(cf),
{
    let mid = choose|mid: LsmEngine| #[trigger]
        logged(before, &mid, to, r) && settled(&mid, after, to);
    assert(logged(before, &mid, to, r) && settled(&mid, after, to));
    assert(mid.has_cf(cf));
    assert(mid.family(cf).levels == before.family(cf).levels);
    assert(!mid.is_damaged(cf));
    lemma_settled_undamaged(&mid, after, to, cf);
}

proof fn lemma_logs_undamaged(
    before: &LsmEngine,
    states: Seq<LsmEngine>,
    es: Seq<BatchEntry>,
    seq: u64,
    n: int,
    cf: Seq<char>,
)
    requires
        logs_all(before, states, es, seq),
        0 <= n < states.len(),
        before.has_cf(cf),
        !before.is_damaged(cf),
    ensures
        states[n].families() == before.families(),
        !states[n].is_damaged(cf),
    decreases n,
{
    if n > 0 {
        lemma_logs_undamaged(before, states, es, seq, n - 1, cf);
        let a = states[n - 1];
        let b = states[n];
        assert(logged(&states[n - 1], &states[n], es[n - 1].0, batch_record(es[n - 1], seq)));
        assert(a.has_cf(cf));
        assert(b.family(cf).levels == a.family(cf).levels);
        assert(!a.family(cf).is_damaged());
    }
}

proof fn lemma_settles_undamaged(
    before: &LsmEngine,
    states: Seq<LsmEngine>,
    names: Seq<Seq<char>>,
    n: int,
    cf: Seq<char>,
)
    requires
        settles_all(before, states, names),
        0 <= n < states.len(),
        before.has_cf(cf),
        !before.is_damaged(cf),
    ensures
        states[n].families() == before.families(),
        !states[n].is_damaged(cf),
    decreases n,
{
    if n > 0 {
        lemma_settles_undamaged(before, states, names, n - 1, cf);
        assert(settled(&states[n - 1], &states[n], names[n - 1]));
        assert(states[n - 1].has_cf(cf));
        lemma_settled_undamaged(&states[n - 1], &states[n], names[n - 1], cf);
    }
}

/// No batch damages a block.
pub proof fn law_batch_damages_nothing(
    before: &LsmEngine,
    after: &LsmEngine,
    es: Seq<BatchEntry>,
    cf: Seq<char>,
)
    requires
        wrote_all(before, after, es),
        before.has_cf(cf),
        !before.is_damaged(cf),
    ensures
        !after.is_damaged(cf),
{
    if es.len() > 0 {
        let (logs, mid, rest) = choose|
            logs: Seq<LsmEngine>,
            mid: LsmEngine,
            rest: Seq<LsmEngine>,
        | #[trigger]
            logs_all(before, logs, es, before.next_seq()) && #[trigger] requeued(
                &logs.last(),
                &mid,
            ) && #[trigger] settles_all(&mid, rest, before.families()) && rest.last() == *after;
        lemma_logs_undamaged(before, logs, es, before.next_seq(), es.len() as int, cf);
        let last = logs.last();
        assert(mid.family(cf) == last.family(cf));
        assert(!mid.is_damaged(cf));
        assert(mid.has_cf(cf));
        lemma_settles_undamaged(&mid, rest, before.families(), rest.len() - 1, cf);
    }
}

/// No compaction damages a block.
pub proof fn law_compaction_damages_nothing(
    before: &LsmEngine,
    after: &LsmEngine,
    r: CompactionResult,
    cf: Seq<char>,
)
    requires
        before.wf(),
        before.expects(r),
        before.has_cf(cf),
        !before.is_damaged(cf),
        levels_compacted(
            before.family(r.cf_name@).levels@,
            after.family(r.cf_name@).levels@,
            r.target_level - 1,
            r.merged_sources@.len() as int,
            r.new_sst,
        ),
        cf != r.cf_name@ ==> after.family(cf) == before.family(cf),
    ensures
        !after.is_damaged(cf),
{
    if cf == r.cf_name@ {
        let x = before.lemma_job_family();
        let job = before.job()->0;
        let a = before.family(cf);
        let b = after.family(cf);
        let n = r.merged_sources@.len() as int;
        assert(string_views(r.merged_sources@).len() == string_views(job.sources@).len());
        assert forall|l: int, i: int|
            0 <= l < b.levels@.len() && 0 <= i < b.levels@[l]@.len() implies !(
        #[trigger] b.levels@[l]@[i]).is_damaged() by {
            if l == r.target_level - 1 {
                assert(b.levels@[l]@[i] == a.levels@[l]@[i + n]);
            } else if l == r.target_level {
                assert(b.levels@[l]@[i] == r.new_sst->0);
            } else {
                assert(b.levels@[l]@[i] == a.levels@[l]@[i]);
            }
        }
    }
}

/// A key that was put or deleted can be looked up after that, whatever is damaged.
pub proof fn law_written_key_is_not_hidden(
    before: &LsmEngine,
    after: &LsmEngine,
    cf: Seq<char>,
    r: Record,
    key: Seq<u8>,
)
    requires
        before.has_cf(cf),
        wrote(before, after, cf, r),
        match r {
            Record::Put { key: k, .. } => k == key,
            Record::PutTtl { key: k, .. } => k == key,
            Record::Delete { key: k, .. } => k == key,
            _ => false,
        },
    ensures
        !after.hides(cf, key),
{
    let mid = choose|mid: LsmEngine| #[trigger]
        logged(before, &mid, cf, r) && settled(&mid, after, cf);
    assert(logged(before, &mid, cf, r) && settled(&mid, after, cf));
    let a = mid.family(cf);
    let b = after.family(cf);
    assert(a.mem@.contains_key(key));
    if flush_due(&mid, cf) {
        let files = b.levels@[0]@;
        let t = files.last();
        assert(t@.contains_key(key));
        if t.hides(key) {
            let j = choose|j: int| #[trigger] leads_to(t.index(), key, j) && t.part(j) is None;
            assert(t.part(j) is None);
            assert(t.is_damaged());
        }
        lemma_level_push(a.levels@[0]@, t);
        assert(level_layer(files).contains_key(key));
    }
}

/// An engine that is opened from the files of another has the same blocks damaged.
pub proof fn law_reopen_keeps_damage(
    e: &LsmEngine,
    again: &LsmEngine,
    asked: Seq<Seq<char>>,
    cf: Seq<char>,
)
    requires
        e.wf(),
        opened(again, e.disk(), asked),
        e.has_cf(cf),
    ensures
        again.is_damaged(cf) == e.is_damaged(cf),
{
    e.lemma_own_files();
    let j = choose|j: int| 0 <= j < e.families().len() && e.families()[j] == cf;
    e.lemma_at(j);
    let a = e.families@[j];
    let b = again.family(cf);
    let d = e.disk();
    let files = files_of(recovered_edits(e.manifest@), cf);
    assert(family_ok(a, d, files, e.write_seq, e.next_file));
    assert(families_in(d).contains(cf));
    assert(files_in(d, cf) == files);
    lemma_same_damage(&a, &b, d, files);
    lemma_same_damage(&b, &a, d, files);
}

proof fn lemma_same_damage(a: &CfState, b: &CfState, d: Disk, files: FileList)
    requires
        a.wf(),
        b.wf(),
        a.name@ == b.name@,
        forall|l: int|
            0 <= l < MAX_LEVELS ==> level_files((#[trigger] a.levels@[l])@) == valid_tables(
                d,
                a.name@,
                files,
                l,
            ),
        forall|l: int|
            0 <= l < MAX_LEVELS ==> level_files((#[trigger] b.levels@[l])@) == valid_tables(
                d,
                a.name@,
                files,
                l,
            ),
    ensures
        a.is_damaged() ==> b.is_damaged(),
{
    if a.is_damaged() {
        let (l, i) = choose|l: int, i: int|
            0 <= l < a.levels@.len() && 0 <= i < a.levels@[l]@.len() && (
            #[trigger] a.levels@[l]@[i]).is_damaged();
        let t = a.levels@[l]@[i];
        assert(level_files(a.levels@[l]@) == level_files(b.levels@[l]@));
        assert(level_files(a.levels@[l]@)[i] == (t.name(), t.bytes()));
        let u = b.levels@[l]@[i];
        assert(level_files(b.levels@[l]@)[i] == (u.name(), u.bytes()));
        let j = choose|j: int| 0 <= j < t.index().len() && #[trigger] t.part(j) is None;
        assert(u.part(j) is None);
        assert(u.is_damaged());
    }
}

// ---- files -----------------------------------------------------------------------

/// Once the queued operations are performed, the files hold what the engine holds.
pub proof fn law_files_hold_contents(e: &LsmEngine)
    requires
        e.wf(),
    ensures
        openable(e.disk()),
        families_in(e.disk()) == e.families(),
        forall|cf: Seq<char>|
            e.has_cf(cf) ==> #[trigger] stored(e.disk(), cf) == e.contents(cf),
{
    e.lemma_own_files();
    e.lemma_files_exact();
}

impl LsmEngine {
    proof fn lemma_files_exact(&self)
        requires
            self.wf(),
        ensures
            forall|cf: Seq<char>|
                self.has_cf(cf) ==> #[trigger] stored(self.disk(), cf) == self.contents(cf),
    {
        assert forall|cf: Seq<char>| self.has_cf(cf) implies #[trigger] stored(self.disk(), cf)
            == self.contents(cf) by {
            let j = choose|j: int| 0 <= j < self.families().len() && self.families()[j] == cf;
            self.lemma_at(j);
            assert(self.families@[j].name@ == cf);
            lemma_family_stored(
                self.families@[j],
                self.disk(),
                self.write_seq,
                self.next_file,
            );
        }
    }
}

/// An engine that is opened from the files of another has its column families, and
/// each of them holds what it held.
pub proof fn law_reopen_keeps_contents(
    e: &LsmEngine,
    again: &LsmEngine,
    asked: Seq<Seq<char>>,
    cf: Seq<char>,
)
    requires
        e.wf(),
        opened(again, e.disk(), asked),
        e.has_cf(cf),
    ensures
        again.has_cf(cf),
        again.contents(cf) == e.contents(cf),
{
    law_files_hold_contents(e);
    lemma_with_names(families_in(e.disk()), asked, cf);
}

/// After a write less of the column family waits in memory than makes a table, as long
/// as there are numbers for files.
pub proof fn law_memory_is_bounded(
    before: &LsmEngine,
    after: &LsmEngine,
    cf: Seq<char>,
    r: Record,
)
    requires
        wrote(before, after, cf, r),
        before.file_number() < u64::MAX,
    ensures
        after.mem_bytes(cf) < MEM_TABLE_SIZE_LIMIT,
{
    let mid = choose|mid: LsmEngine| #[trigger]
        logged(before, &mid, cf, r) && settled(&mid, after, cf);
    assert(logged(before, &mid, cf, r) && settled(&mid, after, cf));
}

/// After a write a job is under way if any family has something to compact, as long
/// as there are numbers for files.
pub proof fn law_compaction_is_started(
    before: &LsmEngine,
    after: &LsmEngine,
    cf: Seq<char>,
    r: Record,
)
    requires
        wrote(before, after, cf, r),
        before.file_number() + 1 < u64::MAX,
        compaction_due(after),
    ensures
        after.is_compacting(),
{
    let mid = choose|mid: LsmEngine| #[trigger]
        logged(before, &mid, cf, r) && settled(&mid, after, cf);
    assert(logged(before, &mid, cf, r) && settled(&mid, after, cf));
}

/// A record that was cut short while it was appended to the log is dropped: the files
/// hold what they held before it.
pub proof fn law_torn_record_is_dropped(e: &LsmEngine, cf: Seq<char>, r: Record, cut: nat)
    requires
        e.wf(),
        e.has_cf(cf),
        fits(r),
        cut < frame(r).len(),
    ensures
        ({
            let d = apply_op(
                e.disk(),
                Op::Append(FileId::Wal(cf), frame(r).take(cut as int)),
            );
            &&& openable(d)
            &&& families_in(d) == e.families()
            &&& forall|x: Seq<char>| e.has_cf(x) ==> #[trigger] stored(d, x) == e.contents(x)
        }),
{
    let d = apply_op(e.disk(), Op::Append(FileId::Wal(cf), frame(r).take(cut as int)));
    e.lemma_log(cf);
    let rs = recovered(content(e.disk(), FileId::Wal(cf)));
    law_recovery_returns_what_was_logged(rs);
    law_torn_write_loses_only_itself(rs, r, cut);
    assert(reads_alike(e.disk(), d)) by {
        assert forall|x: Seq<char>|
            recovered(#[trigger] content(e.disk(), FileId::Wal(x))) == recovered(
                content(d, FileId::Wal(x)),
            ) by {
            if x != cf {
                assert(content(d, FileId::Wal(x)) == content(e.disk(), FileId::Wal(x)));
            }
        }
        assert(content(d, FileId::Manifest) == content(e.disk(), FileId::Manifest));
    }
    lemma_reads_alike(e.disk(), d);
    law_files_hold_contents(e);
    assert forall|x: Seq<char>| e.has_cf(x) implies #[trigger] stored(d, x) == e.contents(x) by {
        assert(stored(e.disk(), x) == stored(d, x));
    }
}

/// An edit that was cut short while it was appended to the manifest is dropped: the
/// files hold what they held before it.
pub proof fn law_torn_edit_changes_nothing(e: &LsmEngine, edit: Edit, cut: nat)
    requires
        e.wf(),
        edit_fits(edit),
        cut < edit_frame(edit).len(),
    ensures
        ({
            let d = apply_op(
                e.disk(),
                Op::Append(FileId::Manifest, edit_frame(edit).take(cut as int)),
            );
            &&& openable(d)
            &&& families_in(d) == e.families()
            &&& forall|x: Seq<char>| e.has_cf(x) ==> #[trigger] stored(d, x) == e.contents(x)
        }),
{
    let d = apply_op(e.disk(), Op::Append(FileId::Manifest, edit_frame(edit).take(cut as int)));
    let es = recovered_edits(e.manifest@);
    law_torn_edit_is_dropped(es, edit, cut);
    assert(edits_in(d) == es);
    assert(edits_in(e.disk()) == es);
    assert(reads_alike(e.disk(), d)) by {
        assert forall|x: Seq<char>|
            recovered(#[trigger] content(e.disk(), FileId::Wal(x))) == recovered(
                content(d, FileId::Wal(x)),
            ) by {
            assert(content(d, FileId::Wal(x)) == content(e.disk(), FileId::Wal(x)));
        }
    }
    lemma_reads_alike(e.disk(), d);
    law_files_hold_contents(e);
    assert forall|x: Seq<char>| e.has_cf(x) implies #[trigger] stored(d, x) == e.contents(x) by {
        assert(stored(e.disk(), x) == stored(d, x));
    }
}

impl LsmEngine {
    /// The log of a family on disk is whole.
    proof fn lemma_log(&self, cf: Seq<char>)
        requires
            self.wf(),
            self.has_cf(cf),
        ensures
            ({
                let log = content(self.disk(), FileId::Wal(cf));
                log == log_of(recovered(log)) && all_fit(recovered(log))
            }),
    {
        let j = choose|j: int| 0 <= j < self.families().len() && self.families()[j] == cf;
        assert(family_ok(
            self.families@[j],
            self.disk(),
            files_of(recovered_edits(self.manifest@), self.families@[j].name@),
            self.write_seq,
            self.next_file,
        ));
    }
}

/// An engine that is opened after a crash shows what was there before the write that
/// was under way, or what is there after it.
pub proof fn law_reopen_after_crash(
    before: &LsmEngine,
    after: &LsmEngine,
    k: int,
    again: &LsmEngine,
    asked: Seq<Seq<char>>,
)
    requires
        crash_safe(before, after),
        before.queued().len() <= k <= after.queued().len(),
        opened(again, disk_after(after, k), asked),
    ensures
        shows(again, before) || shows(again, after),
{
    let d = disk_after(after, k);
    assert(recovers(d, before) || recovers(d, after));
    if recovers(d, before) {
        lemma_shows(again, before, d, asked);
    } else {
        lemma_shows(again, after, d, asked);
    }
}

/// Every column family of `e` is there in `again` and shows the same.
pub open spec fn shows(again: &LsmEngine, e: &LsmEngine) -> bool {
    forall|cf: Seq<char>|
        e.has_cf(cf) ==> again.has_cf(cf) && live(#[trigger] again.contents(cf)) == live(
            e.contents(cf),
        )
}

proof fn lemma_shows(again: &LsmEngine, e: &LsmEngine, d: Disk, asked: Seq<Seq<char>>)
    requires
        recovers(d, e),
        opened(again, d, asked),
    ensures
        shows(again, e),
{
    assert forall|cf: Seq<char>| e.has_cf(cf) implies #[trigger] again.has_cf(cf) by {
        lemma_shows_family(again, e, d, asked, cf);
    }
    assert forall|cf: Seq<char>| e.has_cf(cf) implies live(#[trigger] again.contents(cf)) == live(
        e.contents(cf),
    ) by {
        lemma_shows_family(again, e, d, asked, cf);
    }
}

proof fn lemma_shows_family(
    again: &LsmEngine,
    e: &LsmEngine,
    d: Disk,
    asked: Seq<Seq<char>>,
    cf: Seq<char>,
)
    requires
        recovers(d, e),
        opened(again, d, asked),
        e.has_cf(cf),
    ensures
        again.has_cf(cf),
        live(again.contents(cf)) == live(e.contents(cf)),
{
    lemma_with_names(families_in(d), asked, cf);
    assert(families_in(d).contains(cf));
    assert(again.contents(cf) == stored(d, cf));
    assert(live(stored(d, cf)) == live(e.contents(cf)));
}

// ---- what readers see ------------------------------------------------------------

/// After a batch a key reads as its last entry in the batch says, and as before where no entry
/// is for it.
pub proof fn law_last_entry_of_a_batch_is_read(
    before: &LsmEngine,
    after: &LsmEngine,
    es: Seq<BatchEntry>,
    cf: Seq<char>,
    key: Seq<u8>,
    now: u64,
    i: int,
)
    requires
        wrote_all(before, after, es),
        before.has_cf(cf),
        -1 <= i < es.len(),
        i >= 0 ==> es[i].0 == cf && es[i].1 == key,
        forall|j: int| i < j < es.len() ==> (#[trigger] es[j]).0 != cf || es[j].1 != key,
    ensures
        i >= 0 ==> seen(after.contents(cf), key, now) == es[i].2,
        i < 0 ==> seen(after.contents(cf), key, now) == seen(before.contents(cf), key, now),
{
    law_last_entry_is_last(es, cf, key, i);
    law_batch_is_seen_whole(before, after, es, cf, key, now);
}

/// An engine that is opened after a crash reads of every key as before the write that was
/// under way, or of every key as after it.
pub proof fn law_reads_after_crash(
    before: &LsmEngine,
    after: &LsmEngine,
    k: int,
    again: &LsmEngine,
    asked: Seq<Seq<char>>,
)
    requires
        crash_safe(before, after),
        before.queued().len() <= k <= after.queued().len(),
        opened(again, apply_ops(after.synced(), after.queued().take(k)), asked),
    ensures
        (forall|cf: Seq<char>, key: Seq<u8>, now: u64|
            before.has_cf(cf) ==> #[trigger] seen(again.contents(cf), key, now) == seen(
                before.contents(cf),
                key,
                now,
            )) || (forall|cf: Seq<char>, key: Seq<u8>, now: u64|
            after.has_cf(cf) ==> #[trigger] seen(again.contents(cf), key, now) == seen(
                after.contents(cf),
                key,
                now,
            )),
{
    law_reopen_after_crash(before, after, k, again, asked);
    if shows(again, before) {
        lemma_shows_reads(again, before);
    } else {
        lemma_shows_reads(again, after);
    }
}

proof fn lemma_shows_reads(again: &LsmEngine, e: &LsmEngine)
    requires
        shows(again, e),
    ensures
        forall|cf: Seq<char>, key: Seq<u8>, now: u64|
            e.has_cf(cf) ==> #[trigger] seen(again.contents(cf), key, now) == seen(
                e.contents(cf),
                key,
                now,
            ),
{
    assert forall|cf: Seq<char>, key: Seq<u8>, now: u64| e.has_cf(cf) implies #[trigger] seen(
        again.contents(cf),
        key,
        now,
    ) == seen(e.contents(cf), key, now) by {
        assert(live(again.contents(cf)) == live(e.contents(cf)));
        law_reads_depend_on_live(again.contents(cf), e.contents(cf), key, now);
    }
}

/// The number that is told of a key is that of its last write, a deletion among them, and a
/// write to one key changes it for no other.
pub proof fn law_number_of_the_last_write(
    before: &LsmEngine,
    after: &LsmEngine,
    cf: &str,
    r: Record,
    key: &[u8],
    was: Option<u64>,
    is: Option<u64>,
)
    requires
        wrote(before, after, cf@, r),
        before.has_cf(cf@),
        call_ensures(LsmEngine::key_write_seq, (before, cf, key), Ok(was)),
        call_ensures(LsmEngine::key_write_seq, (after, cf, key), Ok(is)),
        !(r is DeleteRange),
    ensures
        ({
            let (k, seq) = match r {
                Record::Put { key, seq, .. } => (key, seq),
                Record::PutTtl { key, seq, .. } => (key, seq),
                Record::Delete { key, seq } => (key, seq),
                Record::DeleteRange { from, seq, .. } => (from, seq),
            };
            &&& k == key@ ==> is == Some(seq)
            &&& k != key@ ==> is == was
        }),
{
    assert(after.family(cf@).buried@ == before.family(cf@).buried@);
}

// ---- success and failure ---------------------------------------------------------

impl LsmEngine {
    /// A family is there if it is one of those that were created.
    pub proof fn law_created_families_are_there(&self, name: Seq<char>, i: int)
        ensures
            0 <= i < self.families().len() && self.families()[i] == name ==> self.has_cf(name),
            self.has_cf(name) ==> exists|j: int|
                0 <= j < self.families().len() && #[trigger] self.families()[j] == name,
    {
        if self.has_cf(name) {
            let j = choose|j: int| 0 <= j < self.families().len() && self.families()[j] == name;
            assert(self.families()[j] == name);
        }
    }

    /// A read fails where there is no such family, and where a damaged block is in the way; in
    /// no other case, and each time with its own error.
    pub proof fn law_when_reads_fail(&self, e: EngineError, name: Seq<char>, blocked: bool)
        ensures
            !self.has_cf(name) ==> (self.fails_with(e, name, blocked) <==> e
                == EngineError::NotFound),
            self.has_cf(name) && blocked ==> (self.fails_with(e, name, blocked) <==> e
                == EngineError::InvalidData),
            self.has_cf(name) && !blocked ==> !self.fails_with(e, name, blocked),
    {
    }

    /// A write is possible as long as there is a number left for it.
    pub proof fn law_when_there_is_room(&self)
        ensures
            self.has_room() <==> self.next_seq() < u64::MAX,
    {
    }
}

/// An engine that was opened has the families that its manifest creates and those that were
/// asked for, and no others. What was asked for and is new is empty and undamaged.
pub proof fn law_opened_families(
    e: &LsmEngine,
    d: Disk,
    asked: Seq<Seq<char>>,
    cf: Seq<char>,
    key: Seq<u8>,
    now: u64,
)
    requires
        opened(e, d, asked),
    ensures
        e.has_cf(cf) <==> families_in(d).contains(cf) || asked.contains(cf),
        asked.contains(cf) && !families_in(d).contains(cf) ==> {
            &&& seen(e.contents(cf), key, now) is None
            &&& !e.is_damaged(cf)
            &&& !e.hides(cf, key)
        },
{
    lemma_with_names(families_in(d), asked, cf);
    if asked.contains(cf) && !families_in(d).contains(cf) {
        let fam = e.family(cf);
        assert(is_new(fam, cf));
        lemma_levels_hide(fam.levels@, key, 0);
    }
}

} // verus!
