//! What a crash leaves: whichever of the queued operations were performed, from the
//! first up to some point, the files hold what the engine held before or after.

use crate::compact_step::{compaction_edits, disk_compacted, lemma_compact_step, names_of};
use crate::engine::{compaction_ops, flush_ops, string_views, table_names, LsmEngine};
use crate::engine::open::create_ops;
use crate::family::{lemma_contents, level_layer, levels_layer, CfState, MAX_LEVELS};
use crate::layers::{lemma_hide_assoc, live};
use crate::manifest::{families_of, files_of, manifest_of, recovered_edits};
use crate::recovery::{family_names, family_ok, lemma_family_frame, lemma_level_push,
    lemma_levels_frame, lemma_valid_frame, level_files, lists, state_ok, valid_tables};
use crate::replay::{law_replay_twice, lemma_replay_live};
use crate::sstable::SSTable;
use crate::storage::{apply_op, apply_ops, content, Disk, FileId, Op};
use crate::stored::{edits_in, families_in, family_newest, files_in, lemma_families_newest,
    lemma_family_stored, lemma_levels_stored, names_newest, openable, stored};
use crate::text::{law_table_name_keeps_seq, seq_in_name, table_name};
use crate::wal::recovered;
use vstd::prelude::*;

verus! {

/// Opening these files gives an engine that shows what `e` shows.
pub open spec fn recovers(d: Disk, e: &LsmEngine) -> bool {
    &&& openable(d)
    &&& families_in(d) == e.families()
    &&& forall|cf: Seq<char>|
        e.has_cf(cf) ==> live(#[trigger] stored(d, cf)) == live(e.contents(cf))
}

/// The files after the first `k` of the queued operations.
pub open spec fn disk_after(e: &LsmEngine, k: int) -> Disk {
    apply_ops(e.synced(), e.queued().take(k))
}

/// Wherever the process stops between two states of the engine, what is found when
/// the files are opened again is one of the two.
pub open spec fn crash_safe(before: &LsmEngine, after: &LsmEngine) -> bool {
    forall|k: int|
        before.queued().len() <= k <= after.queued().len() ==> recovers(
            #[trigger] disk_after(after, k),
            before,
        ) || recovers(disk_after(after, k), after)
}

/// Both engines show the same.
pub open spec fn same_live(a: &LsmEngine, b: &LsmEngine) -> bool {
    &&& a.families() == b.families()
    &&& forall|cf: Seq<char>|
        a.has_cf(cf) ==> live(#[trigger] a.contents(cf)) == live(b.contents(cf))
}

/// Where one of two steps changes nothing that is shown, both together are safe.
pub proof fn lemma_crash_steps(a: &LsmEngine, b: &LsmEngine, c: &LsmEngine)
    requires
        crash_safe(a, b),
        crash_safe(b, c),
        same_live(b, c),
        a.queued().is_prefix_of(b.queued()),
        b.queued().is_prefix_of(c.queued()),
        b.synced() == c.synced(),
    ensures
        crash_safe(a, c),
{
    assert forall|k: int| a.queued().len() <= k <= c.queued().len() implies recovers(
        #[trigger] disk_after(c, k),
        a,
    ) || recovers(disk_after(c, k), c) by {
        let d = disk_after(c, k);
        assert(recovers(d, b) ==> recovers(d, c)) by {
            if recovers(d, b) {
                assert forall|cf: Seq<char>| c.has_cf(cf) implies live(#[trigger] stored(d, cf))
                    == live(c.contents(cf)) by {
                    assert(b.has_cf(cf));
                    assert(live(b.contents(cf)) == live(c.contents(cf)));
                }
            }
        }
        if k <= b.queued().len() {
            let x = b.queued();
            let y = c.queued();
            assert(x =~= y.subrange(0, x.len() as int));
            assert(y.take(k) =~= x.take(k)) by {
                assert forall|i: int| 0 <= i < k implies y[i] == x[i] by {
                    assert(y.subrange(0, x.len() as int)[i] == y[i]);
                }
            }
            assert(d == disk_after(b, k));
        }
    }
}

/// Operations after others.
pub proof fn lemma_apply_concat(d: Disk, a: Seq<Op>, b: Seq<Op>)
    ensures
        apply_ops(d, a + b) == apply_ops(apply_ops(d, a), b),
    decreases b.len(),
{
    if b.len() == 0 {
        assert(a + b =~= a);
    } else {
        lemma_apply_concat(d, a, b.drop_last());
        assert((a + b).drop_last() =~= a + b.drop_last());
        assert((a + b).last() == b.last());
    }
}

impl LsmEngine {
    /// The files after the operations that were queued before and some more.
    proof fn lemma_disk_after(&self, after: &LsmEngine, more: Seq<Op>, k: int)
        requires
            after.queued() == self.queued() + more,
            after.synced() == self.synced(),
            self.queued().len() <= k <= after.queued().len(),
        ensures
            disk_after(after, k) == apply_ops(self.disk(), more.take(k - self.queued().len())),
    {
        let n = k - self.queued().len();
        assert((self.queued() + more).take(k) =~= self.queued() + more.take(n));
        lemma_apply_concat(self.synced(), self.queued(), more.take(n));
    }

    /// Files that are in step with a state in memory hold what it holds.
    proof fn lemma_recovers(
        &self,
        fams: Seq<CfState>,
        log: Seq<u8>,
        d: Disk,
        write_seq: u64,
        next_file: u64,
    )
        requires
            state_ok(fams, log, d, write_seq, next_file),
            write_seq >= 1,
            family_names(fams) == self.families(),
            forall|j: int|
                0 <= j < fams.len() ==> live((#[trigger] fams[j]).contents()) == live(
                    self.contents(fams[j].name@),
                ),
        ensures
            recovers(d, self),
    {
        let names = families_in(d);
        assert(names == family_names(fams));
        assert forall|j: int| 0 <= j < names.len() implies family_newest(d, #[trigger] names[j])
            < write_seq && names_newest(files_in(d, names[j])) < u64::MAX by {
            assert(names[j] == fams[j].name@);
            lemma_family_stored(fams[j], d, write_seq, next_file);
        }
        lemma_families_newest(d, names, write_seq);
        assert forall|cf: Seq<char>| self.has_cf(cf) implies live(#[trigger] stored(d, cf)) == live(
            self.contents(cf),
        ) by {
            let j = choose|j: int| 0 <= j < self.families().len() && self.families()[j] == cf;
            assert(fams[j].name@ == cf);
            lemma_family_stored(fams[j], d, write_seq, next_file);
        }
    }

    /// The engine's own files hold what it holds.
    pub proof fn lemma_own_files(&self)
        requires
            self.wf(),
        ensures
            recovers(self.disk(), self),
    {
        assert forall|j: int| 0 <= j < self.families@.len() implies live(
            (#[trigger] self.families@[j]).contents(),
        ) == live(self.contents(self.families@[j].name@)) by {
            self.lemma_at(j);
        }
        self.lemma_recovers(
            self.families@,
            self.manifest@,
            self.disk(),
            self.write_seq,
            self.next_file,
        );
    }

    /// A step that queues one operation is safe.
    pub(super) proof fn lemma_one_op_safe(&self, after: &LsmEngine, op: Op)
        requires
            self.wf(),
            after.wf(),
            after.synced() == self.synced(),
            after.queued() == self.queued().push(op),
        ensures
            crash_safe(self, after),
    {
        assert forall|k: int| self.queued().len() <= k <= after.queued().len() implies recovers(
            #[trigger] disk_after(after, k),
            self,
        ) || recovers(disk_after(after, k), after) by {
            if k == self.queued().len() {
                assert(after.queued().take(k) =~= self.queued());
                self.lemma_own_files();
            } else {
                assert(after.queued().take(k) =~= after.queued());
                after.lemma_own_files();
            }
        }
    }

    /// A step that queues nothing is safe.
    pub(super) proof fn lemma_no_op_safe(&self, after: &LsmEngine)
        requires
            self.wf(),
            after.synced() == self.synced(),
            after.queued() == self.queued(),
        ensures
            crash_safe(self, after),
    {
        assert forall|k: int| self.queued().len() <= k <= after.queued().len() implies recovers(
            #[trigger] disk_after(after, k),
            self,
        ) || recovers(disk_after(after, k), after) by {
            assert(after.queued().take(k) =~= self.queued());
            self.lemma_own_files();
        }
    }

    /// Files that no family uses may change.
    proof fn lemma_unused_file(&self, e: Disk)
        requires
            self.wf(),
            content(e, FileId::Manifest) == content(self.disk(), FileId::Manifest),
            forall|j: int|
                0 <= j < self.families@.len() ==> content(
                    e,
                    FileId::Wal((#[trigger] self.families@[j]).name@),
                ) == content(self.disk(), FileId::Wal(self.families@[j].name@)),
            forall|x: Seq<char>, f: Seq<char>|
                lists(files_of(recovered_edits(self.manifest@), x), f) ==> #[trigger] content(
                    e,
                    FileId::Table(x, f),
                ) == content(self.disk(), FileId::Table(x, f)),
        ensures
            recovers(e, self),
    {
        let es = recovered_edits(self.manifest@);
        assert forall|j: int| 0 <= j < self.families@.len() implies family_ok(
            #[trigger] self.families@[j],
            e,
            files_of(es, self.families@[j].name@),
            self.write_seq,
            self.next_file,
        ) by {
            let name = self.families@[j].name@;
            let files = files_of(es, name);
            assert forall|i: int| 0 <= i < files.len() implies content(
                self.disk(),
                FileId::Table(name, (#[trigger] files[i]).1),
            ) == content(e, FileId::Table(name, files[i].1)) by {
                assert(lists(files, files[i].1));
            }
            lemma_family_frame(
                self.families@[j],
                self.disk(),
                e,
                files,
                self.write_seq,
                self.next_file,
                self.write_seq,
                self.next_file,
            );
        }
        assert forall|j: int| 0 <= j < self.families@.len() implies live(
            (#[trigger] self.families@[j]).contents(),
        ) == live(self.contents(self.families@[j].name@)) by {
            self.lemma_at(j);
        }
        self.lemma_recovers(
            self.families@,
            self.manifest@,
            e,
            self.write_seq,
            self.next_file,
        );
    }

    /// Between the edit that adds a flushed table and the emptying of the log, the
    /// records of the log are found in the table and in the log, and replaying them
    /// on top of the table changes nothing.
    proof fn lemma_flush_recorded(&self, after: &LsmEngine, d2: Disk, i: int, t: SSTable)
        requires
            self.flushed(after, i, t),
            content(d2, FileId::Manifest) == content(after.disk(), FileId::Manifest),
            forall|x: Seq<char>, f: Seq<char>| #[trigger]
                content(d2, FileId::Table(x, f)) == content(after.disk(), FileId::Table(x, f)),
            forall|x: Seq<char>| #[trigger]
                content(d2, FileId::Wal(x)) == content(self.disk(), FileId::Wal(x)),
            forall|x: Seq<char>|
                x != self.families@[i].name@ ==> #[trigger] content(after.disk(), FileId::Wal(x))
                    == content(self.disk(), FileId::Wal(x)),
        ensures
            recovers(d2, self),
    {
        let name = self.families@[i].name@;
        let a = self.families@[i];
        let b = after.families@[i];
        let es2 = recovered_edits(after.manifest@);
        let ws = self.write_seq;
        assert(edits_in(d2) == es2);
        assert(families_in(d2) == family_names(after.families@));
        assert(family_names(after.families@) =~= family_names(self.families@));
        assert(family_ok(
            a,
            self.disk(),
            files_of(recovered_edits(self.manifest@), name),
            ws,
            self.next_file,
        ));
        assert(family_ok(b, after.disk(), files_of(es2, name), ws, after.next_file));
        // this family
        let rs = recovered(a.wal@);
        let files = files_in(d2, name);
        assert forall|l: int| 0 <= l < MAX_LEVELS implies level_files((#[trigger] b.levels@[l])@)
            == valid_tables(d2, name, files, l) by {
            lemma_valid_frame(after.disk(), d2, name, files, l);
        }
        assert(content(d2, FileId::Wal(name)) == a.wal@);
        lemma_levels_stored(b.levels@, d2, name, ws, after.next_file);
        lemma_contents(&a);
        lemma_levels_frame(a.levels@, b.levels@, 1);
        lemma_level_push(a.levels@[0]@, t);
        lemma_hide_assoc(
            levels_layer(a.levels@, 1),
            level_layer(a.levels@[0]@),
            a.mem@,
        );
        assert(b.tables() == a.tables().union_prefer_right(a.mem@));
        lemma_replay_live(a.tables(), rs);
        lemma_replay_live(b.tables(), rs);
        law_replay_twice(live(a.tables()), rs);
        assert(live(stored(d2, name)) == live(a.contents()));
        // all of them
        let names = families_in(d2);
        assert forall|j: int| 0 <= j < names.len() implies family_newest(d2, #[trigger] names[j])
            < ws && names_newest(files_in(d2, names[j])) < u64::MAX && live(stored(d2, names[j]))
            == live(self.families@[j].contents()) by {
            assert(names[j] == self.families@[j].name@);
            assert(names[j] == after.families@[j].name@);
            if j != i {
                assert(self.families@[j].name@ != name);
                assert(content(d2, FileId::Wal(names[j])) == content(
                    after.disk(),
                    FileId::Wal(names[j]),
                ));
                lemma_family_frame(
                    after.families@[j],
                    after.disk(),
                    d2,
                    files_of(es2, names[j]),
                    ws,
                    after.next_file,
                    ws,
                    after.next_file,
                );
                lemma_family_stored(after.families@[j], d2, ws, after.next_file);
            }
        }
        lemma_families_newest(d2, names, ws);
        assert forall|cf: Seq<char>| self.has_cf(cf) implies live(#[trigger] stored(d2, cf))
            == live(self.contents(cf)) by {
            let j = choose|j: int| 0 <= j < self.families().len() && self.families()[j] == cf;
            self.lemma_at(j);
            assert(names[j] == cf);
        }
    }

    /// A flush is safe.
    pub(super) proof fn lemma_flush_safe(&self, after: &LsmEngine, i: int, t: SSTable)
        requires
            self.flushed(after, i, t),
        ensures
            crash_safe(self, after),
    {
        let name = self.families@[i].name@;
        let ops = flush_ops(name, t);
        let d = self.disk();
        let d1 = apply_op(d, ops[0]);
        let d2 = apply_op(d1, ops[1]);
        let d3 = apply_op(d2, ops[2]);
        assert(ops.take(0) =~= Seq::<Op>::empty());
        assert(ops.take(1).drop_last() =~= ops.take(0));
        assert(ops.take(2).drop_last() =~= ops.take(1));
        assert(ops.take(3).drop_last() =~= ops.take(2));
        assert(apply_ops(d, ops.take(0)) == d);
        assert(ops.take(1).last() == ops[0]);
        assert(ops.take(2).last() == ops[1]);
        assert(ops.take(3).last() == ops[2]);
        assert(apply_ops(d, ops.take(1)) == d1);
        assert(apply_ops(d, ops.take(2)) == d2);
        assert(apply_ops(d, ops.take(3)) == d3);
        lemma_apply_concat(self.synced(), self.queued(), ops);
        assert(ops.take(3) =~= ops);
        assert(after.disk() == d3);
        assert forall|k: int| self.queued().len() <= k <= after.queued().len() implies recovers(
            #[trigger] disk_after(after, k),
            self,
        ) || recovers(disk_after(after, k), after) by {
            self.lemma_disk_after(after, ops, k);
            let n = k - self.queued().len();
            if n == 0 {
                self.lemma_own_files();
            } else if n == 1 {
                self.lemma_fresh_table(0, self.next_file);
                self.lemma_unused_file(d1);
            } else if n == 2 {
                self.lemma_flush_recorded(after, d2, i, t);
            } else {
                after.lemma_own_files();
            }
        }
    }

    /// A name with a number that is still free is not listed.
    proof fn lemma_fresh_table(&self, level: nat, seq: u64)
        requires
            self.wf(),
            seq >= self.next_file,
        ensures
            forall|x: Seq<char>|
                !#[trigger] lists(
                    files_of(recovered_edits(self.manifest@), x),
                    table_name(level, seq as nat),
                ),
    {
        let es = recovered_edits(self.manifest@);
        let fresh = table_name(level, seq as nat);
        law_table_name_keeps_seq(level, seq);
        assert forall|x: Seq<char>| !#[trigger] lists(files_of(es, x), fresh) by {
            let files = files_of(es, x);
            if lists(files, fresh) {
                let a = choose|a: int| 0 <= a < files.len() && (#[trigger] files[a]).1 == fresh;
                assert(files[a].1 == fresh);
                assert(families_of(es).contains(x));
                let j = choose|j: int| 0 <= j < families_of(es).len() && families_of(es)[j] == x;
                assert(family_names(self.families@)[j] == x);
                assert(family_ok(
                    self.families@[j],
                    self.disk(),
                    files_of(es, self.families@[j].name@),
                    self.write_seq,
                    self.next_file,
                ));
                assert(seq_in_name(files[a].1) == Some(seq));
            }
        }
    }
}

impl LsmEngine {
    /// Once the edit of a compaction is logged, it does not matter which of the
    /// merged files are still there.
    proof fn lemma_compact_recorded(&self, after: &LsmEngine, e: Disk, i: int, t: Option<SSTable>)
        requires
            self.took(after, i, t),
            disk_compacted(
                self.disk(),
                e,
                self.families@[i].name@,
                string_views((self.in_flight->0).sources@) + string_views(
                    (self.in_flight->0).targets@,
                ),
                ((self.in_flight->0).level + 1) as u32,
                t,
            ),
        ensures
            recovers(e, after),
    {
        let job = self.in_flight->0;
        let a = self.families@[i];
        let n = job.sources@.len() as int;
        let src = a.levels@[job.level as int]@.take(n);
        let tgt = a.levels@[job.level + 1]@;
        assert(names_of(src) =~= table_names(src));
        assert(names_of(tgt) =~= table_names(tgt));
        let j = self.lemma_job_family();
        self.lemma_at(i);
        assert(family_ok(
            after.families@[i],
            after.disk(),
            files_of(recovered_edits(after.manifest@), after.families@[i].name@),
            after.write_seq,
            after.next_file,
        ));
        lemma_compact_step(
            self.families@,
            after.families@,
            self.manifest@,
            self.disk(),
            e,
            self.write_seq,
            self.next_file,
            i,
            job.level as int,
            n,
            t,
            job.drop_tombstones,
            job.seq,
        );
        assert forall|x: int| 0 <= x < after.families@.len() implies live(
            (#[trigger] after.families@[x]).contents(),
        ) == live(after.contents(after.families@[x].name@)) by {
            after.lemma_at(x);
        }
        after.lemma_recovers(
            after.families@,
            after.manifest@,
            e,
            after.write_seq,
            after.next_file,
        );
    }

    /// Taking in a compaction is safe.
    pub(super) proof fn lemma_compact_safe(&self, after: &LsmEngine, i: int, t: Option<SSTable>)
        requires
            self.took(after, i, t),
        ensures
            crash_safe(self, after),
    {
        let job = self.in_flight->0;
        let name = self.families@[i].name@;
        let gone = string_views(job.sources@) + string_views(job.targets@);
        let lv = (job.level + 1) as u32;
        let ops = compaction_ops(name, gone, lv, t);
        let d = self.disk();
        let n0: int = if t is Some {
            1
        } else {
            0
        };
        self.lemma_fresh_not_gone(i);
        assert forall|k: int| self.queued().len() <= k <= after.queued().len() implies recovers(
            #[trigger] disk_after(after, k),
            self,
        ) || recovers(disk_after(after, k), after) by {
            self.lemma_disk_after(after, ops, k);
            let n = k - self.queued().len();
            if n == 0 {
                assert(ops.take(0) =~= Seq::<Op>::empty());
                self.lemma_own_files();
            } else if n <= n0 {
                // the new table was written
                assert(ops.take(1) =~= seq![ops[0]]);
                assert(seq![ops[0]].drop_last() =~= Seq::<Op>::empty());
                assert(apply_ops(d, Seq::<Op>::empty()) == d);
                assert(apply_ops(d, ops.take(1)) == apply_op(d, ops[0]));
                assert forall|x: Seq<char>, f: Seq<char>|
                    lists(files_of(recovered_edits(self.manifest@), x), f) implies
                    #[trigger] content(apply_op(d, ops[0]), FileId::Table(x, f)) == content(
                    d,
                    FileId::Table(x, f),
                ) by {}
                self.lemma_unused_file(apply_op(d, ops[0]));
            } else {
                lemma_compact_prefix(d, name, gone, lv, t, n);
                self.lemma_compact_recorded(after, apply_ops(d, ops.take(n)), i, t);
            }
        }
    }
}

/// The files after the first operations of a compaction, the logging of its edit
/// among them.
proof fn lemma_compact_prefix(
    d: Disk,
    cf: Seq<char>,
    gone: Seq<Seq<char>>,
    level: u32,
    t: Option<SSTable>,
    n: int,
)
    requires
        (if t is Some {
            1int
        } else {
            0int
        }) < n <= compaction_ops(cf, gone, level, t).len(),
        t matches Some(table) ==> !gone.contains(table.name()),
    ensures
        disk_compacted(
            d,
            apply_ops(d, compaction_ops(cf, gone, level, t).take(n)),
            cf,
            gone,
            level,
            t,
        ),
    decreases n,
{
    let ops = compaction_ops(cf, gone, level, t);
    let n0: int = if t is Some {
        1
    } else {
        0
    };
    let s = ops.take(n);
    assert(s.drop_last() =~= ops.take(n - 1));
    assert(s.last() == ops[n - 1]);
    let e0 = apply_ops(d, ops.take(n - 1));
    let e = apply_ops(d, s);
    assert(e == apply_op(e0, ops[n - 1]));
    if n == n0 + 1 {
        assert(ops.take(0) =~= Seq::<Op>::empty());
        assert(apply_ops(d, ops.take(0)) == d);
        if t is Some {
            assert(ops.take(1).drop_last() =~= ops.take(0));
            assert(ops.take(1).last() == ops[0]);
            assert(e0 == apply_op(d, ops[0]));
        }
        assert(ops[n - 1] == Op::Append(
            FileId::Manifest,
            manifest_of(compaction_edits(cf, gone, level, t)),
        ));
    } else {
        lemma_compact_prefix(d, cf, gone, level, t, n - 1);
        let f = gone[n - n0 - 2];
        assert(ops[n - 1] == Op::Remove(FileId::Table(cf, f)));
        assert(gone.contains(f));
        assert(content(e, FileId::Manifest) == content(e0, FileId::Manifest));
        assert forall|x: Seq<char>| #[trigger] content(e, FileId::Wal(x)) == content(
            d,
            FileId::Wal(x),
        ) by {
            assert(content(e0, FileId::Wal(x)) == content(d, FileId::Wal(x)));
        }
        assert forall|x: Seq<char>, g: Seq<char>|
            (x != cf || !(gone.contains(g) || (t matches Some(t) && t.name() == g))) implies
            #[trigger] content(e, FileId::Table(x, g)) == content(d, FileId::Table(x, g)) by {
            assert(content(e0, FileId::Table(x, g)) == content(d, FileId::Table(x, g)));
        }
    }
}

impl LsmEngine {
    /// Creating a column family is safe: until its edit is logged it is not there.
    #[verifier::rlimit(60)]
    pub(super) proof fn lemma_create_safe(&self, after: &LsmEngine, name: Seq<char>)
        requires
            self.wf(),
            after.wf(),
            !self.has_cf(name),
            after.synced() == self.synced(),
            after.queued() == self.queued() + create_ops(name),
        ensures
            crash_safe(self, after),
    {
        let ops = create_ops(name);
        let d = self.disk();
        assert(ops.take(0) =~= Seq::<Op>::empty());
        assert(ops.take(1).drop_last() =~= ops.take(0));
        assert(ops.take(2).drop_last() =~= ops.take(1));
        assert(ops.take(3) =~= ops);
        assert(apply_ops(d, ops.take(0)) == d);
        assert(ops.take(1).last() == ops[0]);
        assert(ops.take(2).last() == ops[1]);
        assert(apply_ops(d, ops.take(1)) == d);
        let d2 = apply_op(d, ops[1]);
        assert(apply_ops(d, ops.take(2)) == d2);
        lemma_apply_concat(self.synced(), self.queued(), ops);
        assert forall|k: int| self.queued().len() <= k <= after.queued().len() implies recovers(
            #[trigger] disk_after(after, k),
            self,
        ) || recovers(disk_after(after, k), after) by {
            self.lemma_disk_after(after, ops, k);
            let n = k - self.queued().len();
            if n <= 1 {
                self.lemma_own_files();
            } else if n == 2 {
                assert forall|j: int| 0 <= j < self.families@.len() implies content(
                    d2,
                    FileId::Wal((#[trigger] self.families@[j]).name@),
                ) == content(d, FileId::Wal(self.families@[j].name@)) by {
                    assert(self.families()[j] == self.families@[j].name@);
                }
                self.lemma_unused_file(d2);
            } else {
                after.lemma_own_files();
            }
        }
    }
}

} // verus!
