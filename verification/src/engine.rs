//! The storage engine.

use crate::buffer::record_bytes;
use crate::bytes::copy_bytes;
use crate::compact_step::{compaction_edits, disk_compacted, lemma_compact_step, lemma_table_is_file,
    lemma_valid_listed, levels_compacted, names_of, removals};
use crate::compaction::{compact_l0_to_l1, compact_level, compacted, dropped, file_damaged, file_layer,
    files_damaged, files_layer, insert_all, l0_needs_compaction, lemma_pairs_storable, MergeOutcome, L0_MAX_FILES, L1_BASE_BYTES, SIZE_RATIO};
use crate::engine::crash::crash_safe;
use crate::error::EngineError;
use crate::family::{lemma_contents, level_layer, table_layers, CfState, MAX_LEVELS};
use crate::layers::{live, stack, Layer};
use crate::listing::lemma_lists_push;
use crate::manifest::{edit_frame, edit_views, files_of, manifest_of, recovered_edits, Edit,
    Manifest, ManifestRecord};
use crate::memtable::{size_sum, MemEntry, MemTable, Version};
use crate::recovery::{families_distinct, family_names, family_ok, lemma_family_frame,
    lemma_files_push, lemma_flush_step, lemma_log_step, lemma_written, level_files, lists, state_ok,
    valid_tables, written};
use crate::replay::apply_record;
use crate::sorted_map::{assoc, pairs};
use crate::sstable::{open_error, SSTable};
use crate::storage::{apply_op, apply_ops, content, lemma_apply_push, op_views, Disk, FileId,
    FileName, FileOp, Op};
use crate::table_format::table_entries;
use crate::text::{law_table_name_keeps_seq, seq_in_name, sstable_file_name, table_name};
use crate::wal::{fits, frame, Wal, WalRecord};
use vstd::prelude::*;
use vstd::string::*;

pub mod cached;
pub mod crash;
pub mod laws;
pub mod levels;
pub mod open;
pub mod read;
pub mod scans;
pub mod write;

verus! {

/// When a memtable has this many bytes it is flushed.
pub const MEM_TABLE_SIZE_LIMIT: usize = 256 * 1024;

/// Files of a family to be merged: the oldest ones of a level and all of the next.
pub struct CompactionJob {
    pub cf_name: String,
    /// The level that the first list of files belongs to.
    pub level: usize,
    pub sources: Vec<String>,
    pub targets: Vec<String>,
    /// Whether nothing older than these files is left.
    pub drop_tombstones: bool,
    /// The number for the name of the new file.
    pub seq: u64,
}

/// A log-structured merge-tree key-value store.
///
/// The engine itself reads and writes no files: it is opened from what they
/// hold, and queues the operations on them that each call asks for.
pub struct LsmEngine {
    families: Vec<CfState>,
    manifest: Manifest,
    next_file: u64,
    write_seq: u64,
    in_flight: Option<CompactionJob>,
    handed_out: bool,
    ops: Vec<FileOp>,
    synced: Ghost<Disk>,
}

/// Counts of one column family.
#[derive(Clone, Debug)]
pub struct Stats {
    pub mem_table_size_bytes: usize,
    pub immutable_count: usize,
    pub level_file_counts: Vec<usize>,
    pub total_ss_table_files: usize,
    /// The names of all column families.
    pub column_families: Vec<String>,
}

/// Position `i` is that of the family `name`.
pub open spec fn is_family(fams: Seq<CfState>, name: Seq<char>, i: int) -> bool {
    0 <= i < fams.len() && fams[i].name@ == name
}

/// The names of the tables of a level.
pub open spec fn table_names(files: Seq<SSTable>) -> Seq<Seq<char>> {
    files.map_values(|t: SSTable| t.name())
}

/// Names as mathematical values.
pub open spec fn string_views(v: Seq<String>) -> Seq<Seq<char>> {
    v.map_values(|s: String| s@)
}

/// The job's files are the oldest of their level and all of the next, and where
/// tombstones are to be dropped, nothing lies below.
pub open spec fn job_fits(job: CompactionJob, cf: CfState) -> bool {
    &&& job.level + 1 < MAX_LEVELS
    &&& 0 < job.sources@.len() <= cf.levels@[job.level as int]@.len()
    &&& job.level > 0 ==> job.sources@.len() == 1
    &&& string_views(job.sources@) == table_names(
        cf.levels@[job.level as int]@.take(job.sources@.len() as int),
    )
    &&& string_views(job.targets@) == table_names(cf.levels@[job.level + 1]@)
    &&& job.drop_tombstones ==> forall|l: int|
        job.level + 1 < l < MAX_LEVELS ==> (#[trigger] cf.levels@[l])@.len() == 0
}

/// A job that is under way fits its family, and the name of its new file is free.
pub open spec fn job_ok(
    job: CompactionJob,
    fams: Seq<CfState>,
    es: Seq<Edit>,
    next_file: u64,
) -> bool {
    &&& exists|i: int| #[trigger] is_family(fams, job.cf_name@, i) && job_fits(job, fams[i])
    &&& job.seq < next_file
    &&& !lists(files_of(es, job.cf_name@), table_name((job.level + 1) as nat, job.seq as nat))
}

/// A family of which only level 0 has got more tables.
pub open spec fn grown(a: CfState, b: CfState) -> bool {
    &&& a.name@ == b.name@
    &&& a.levels@.len() == b.levels@.len()
    &&& forall|l: int| 1 <= l < a.levels@.len() ==> (#[trigger] a.levels@[l])@ == b.levels@[l]@
    &&& a.levels@[0]@.len() <= b.levels@[0]@.len()
    &&& b.levels@[0]@.take(a.levels@[0]@.len() as int) == a.levels@[0]@
}

/// A family that has the tables it had has grown by none.
pub proof fn lemma_grown_same(a: CfState, b: CfState)
    requires
        a.name@ == b.name@,
        a.levels@ == b.levels@,
    ensures
        grown(a, b),
{
    assert(b.levels@[0]@.take(a.levels@[0]@.len() as int) =~= a.levels@[0]@);
}

/// A job that is under way still fits when families have grown.
pub proof fn lemma_job_stays(
    job: CompactionJob,
    fams: Seq<CfState>,
    after: Seq<CfState>,
    es: Seq<Edit>,
    es2: Seq<Edit>,
    next_file: u64,
    next_file2: u64,
)
    requires
        job_ok(job, fams, es, next_file),
        next_file <= next_file2,
        fams.len() <= after.len(),
        forall|i: int|
            0 <= i < fams.len() ==> (#[trigger] fams[i]).levels@.len() == MAX_LEVELS && grown(
                fams[i],
                after[i],
            ),
        !lists(files_of(es2, job.cf_name@), table_name((job.level + 1) as nat, job.seq as nat)),
    ensures
        job_ok(job, after, es2, next_file2),
{
    let i = choose|i: int| #[trigger] is_family(fams, job.cf_name@, i) && job_fits(job, fams[i]);
    assert(is_family(fams, job.cf_name@, i) && job_fits(job, fams[i]));
    assert(grown(fams[i], after[i]));
    assert(is_family(after, job.cf_name@, i));
    let n = job.sources@.len() as int;
    let a = fams[i].levels@[job.level as int]@;
    let b = after[i].levels@[job.level as int]@;
    assert(a.take(n) =~= b.take(n)) by {
        if job.level == 0 {
            assert forall|j: int| 0 <= j < n implies a[j] == b[j] by {
                assert(b.take(a.len() as int)[j] == a[j]);
            }
        }
    }
    assert(job_fits(job, after[i])) by {
        if job.drop_tombstones {
            assert forall|l: int| job.level + 1 < l < MAX_LEVELS implies (
            #[trigger] after[i].levels@[l])@.len() == 0 by {
                assert(fams[i].levels@[l]@.len() == 0);
            }
        }
    }
}

/// The operations of a flush: the table is written, the edit is logged, and then
/// the log of the family is emptied.
pub open spec fn flush_ops(cf: Seq<char>, t: SSTable) -> Seq<Op> {
    seq![
        Op::Write(FileId::Table(cf, t.name()), t.bytes()),
        Op::Append(
            FileId::Manifest,
            edit_frame(Edit::AddFile { cf, level: 0, filename: t.name() }),
        ),
        Op::Write(FileId::Wal(cf), Seq::empty()),
    ]
}

impl LsmEngine {
    /// The files as they are once every queued operation was performed.
    pub closed spec fn disk(&self) -> Disk {
        apply_ops(self.synced@, op_views(self.ops@))
    }

    /// The files as they are if none of the queued operations was performed.
    pub closed spec fn synced(&self) -> Disk {
        self.synced@
    }

    /// The queued operations.
    pub closed spec fn queued(&self) -> Seq<Op> {
        op_views(self.ops@)
    }

    /// The state in memory is what the files say.
    pub closed spec fn wf(&self) -> bool {
        &&& self.write_seq >= 1
        &&& state_ok(
            self.families@,
            self.manifest@,
            self.disk(),
            self.write_seq,
            self.next_file,
        )
        &&& self.in_flight matches Some(job) ==> job_ok(
            job,
            self.families@,
            recovered_edits(self.manifest@),
            self.next_file,
        )
    }

    /// The names of the column families, in the order of their creation.
    pub closed spec fn families(&self) -> Seq<Seq<char>> {
        family_names(self.families@)
    }

    /// There is a column family of that name.
    pub open spec fn has_cf(&self, name: Seq<char>) -> bool {
        self.families().contains(name)
    }

    spec fn at(&self, name: Seq<char>) -> int {
        choose|i: int| is_family(self.families@, name, i)
    }

    /// What was last written to each key of a column family.
    pub closed spec fn contents(&self, name: Seq<char>) -> Layer {
        self.families@[self.at(name)].contents()
    }

    /// What was last written to each key of a column family, with the deletions whose
    /// tombstones were dropped since the engine was opened.
    pub open spec fn history(&self, name: Seq<char>) -> Layer {
        self.family(name).buried@.union_prefer_right(self.contents(name))
    }

    /// A column family: what waits in memory, and its tables by level.
    pub closed spec fn family(&self, name: Seq<char>) -> CfState {
        self.families@[self.at(name)]
    }

    /// A search of a column family for a key comes to a damaged block before it finds the
    /// key.
    pub open spec fn hides(&self, name: Seq<char>, key: Seq<u8>) -> bool {
        self.family(name).hides(key)
    }

    /// Some block of a table of a column family is damaged.
    pub open spec fn is_damaged(&self, name: Seq<char>) -> bool {
        self.family(name).is_damaged()
    }

    /// What a read fails with: `NotFound` where there is no such family, else `InvalidData`,
    /// where a damaged block is in the way.
    pub open spec fn fails_with(&self, e: EngineError, name: Seq<char>, blocked: bool) -> bool {
        if self.has_cf(name) {
            blocked && e == EngineError::InvalidData
        } else {
            e == EngineError::NotFound
        }
    }

    /// What was last written to each key is what waits in memory on top of the tables.
    pub proof fn law_contents_of_family(&self, name: Seq<char>)
        ensures
            self.contents(name) == self.family(name).contents(),
    {
    }

    /// A column family has its name.
    pub proof fn lemma_family_name(&self, name: Seq<char>)
        requires
            self.has_cf(name),
        ensures
            self.family(name).name@ == name,
    {
        let i = choose|i: int| 0 <= i < self.families().len() && self.families()[i] == name;
        assert(is_family(self.families@, name, i));
    }

    /// The number of the next file.
    pub closed spec fn file_number(&self) -> u64 {
        self.next_file
    }

    /// The job that is under way.
    pub closed spec fn job(&self) -> Option<CompactionJob> {
        self.in_flight
    }

    /// The sequence number of the next write.
    pub closed spec fn next_seq(&self) -> u64 {
        self.write_seq
    }

    /// There is a sequence number left for one more write.
    pub open spec fn has_room(&self) -> bool {
        self.next_seq() < u64::MAX
    }

    /// Whether there is a sequence number left for one more write.
    pub fn check_room(&self) -> (r: bool)
        ensures
            r == self.has_room(),
    {
        self.write_seq < u64::MAX
    }

    /// The sequence number of the next write.
    pub fn write_seq(&self) -> (r: u64)
        ensures
            r == self.next_seq(),
    {
        self.write_seq
    }

    proof fn lemma_at(&self, i: int)
        requires
            families_distinct(self.families@),
            0 <= i < self.families@.len(),
        ensures
            self.at(self.families@[i].name@) == i,
            self.has_cf(self.families@[i].name@),
    {
        let name = self.families@[i].name@;
        assert(is_family(self.families@, name, i));
        let j = self.at(name);
        assert(is_family(self.families@, name, j));
        assert(self.families()[i] == name);
    }

    /// The position of a column family.
    fn find(&self, name: &str) -> (r: Option<usize>)
        ensures
            match r {
                Some(i) => is_family(self.families@, name@, i as int) && self.has_cf(name@),
                None => !self.has_cf(name@),
            },
    {
        let key: String = name.to_owned();
        let mut i: usize = 0;
        while i < self.families.len()
            invariant
                key@ == name@,
                i <= self.families@.len(),
                forall|j: int| 0 <= j < i ==> (#[trigger] self.families@[j]).name@ != name@,
            decreases self.families@.len() - i,
        {
            if self.families[i].name == key {
                assert(self.families()[i as int] == name@);
                return Some(i);
            }
            i = i + 1;
        }
        proof {
            if self.families().contains(name@) {
                let j = choose|j: int|
                    0 <= j < self.families().len() && self.families()[j] == name@;
                assert(self.families@[j].name@ == name@);
            }
        }
        None
    }

    /// Queue an operation on the files.
    fn queue(&mut self, op: FileOp)
        ensures
            final(self).disk() == apply_op(old(self).disk(), op@),
            final(self).families == old(self).families,
            final(self).manifest == old(self).manifest,
            final(self).next_file == old(self).next_file,
            final(self).write_seq == old(self).write_seq,
            final(self).in_flight == old(self).in_flight,
            final(self).handed_out == old(self).handed_out,
            final(self).synced == old(self).synced,
            final(self).queued() == old(self).queued().push(op@),
    {
        let ghost before = op_views(self.ops@);
        let ghost o = op@;
        self.ops.push(op);
        proof {
            assert(op_views(self.ops@) =~= before.push(o));
            lemma_apply_push(self.synced@, before, o);
        }
    }

    /// Log one record for family `i` and apply it to its memtable.
    fn log(&mut self, i: usize, rec: WalRecord)
        requires
            old(self).wf(),
            i < old(self).families@.len(),
            fits(rec@),
            rec@.seq() < old(self).write_seq,
        ensures
            final(self).wf(),
            final(self).families@.len() == old(self).families@.len(),
            forall|j: int|
                0 <= j < old(self).families@.len() && j != i ==> (#[trigger] final(self).families@[j])
                    == old(self).families@[j],
            final(self).families@[i as int].name == old(self).families@[i as int].name,
            final(self).families@[i as int].contents() == written(
                old(self).families@[i as int].contents(),
                rec@,
            ),
            final(self).families@[i as int].levels == old(self).families@[i as int].levels,
            final(self).families@[i as int].buried == old(self).families@[i as int].buried,
            final(self).families@[i as int].mem@ == apply_record(
                old(self).families@[i as int].mem@,
                old(self).families@[i as int].tables(),
                rec@,
            ),
            final(self).families@[i as int].mem.size() == size_sum(
                old(self).families@[i as int].mem.size(),
                record_bytes(old(self).families@[i as int].contents(), rec@),
            ),
            final(self).families@[i as int].wal@ == old(self).families@[i as int].wal@ + frame(
                rec@,
            ),
            final(self).manifest == old(self).manifest,
            final(self).next_file == old(self).next_file,
            final(self).write_seq == old(self).write_seq,
            final(self).in_flight == old(self).in_flight,
            final(self).handed_out == old(self).handed_out,
            final(self).synced == old(self).synced,
            final(self).queued() == old(self).queued().push(
                Op::Append(FileId::Wal(old(self).families@[i as int].name@), frame(rec@)),
            ),
    {
        let ghost before = *self;
        let ghost r = rec@;
        proof {
            assert(family_ok(
                self.families@[i as int],
                self.disk(),
                files_of(recovered_edits(self.manifest@), self.families@[i as int].name@),
                self.write_seq,
                self.next_file,
            ));
            lemma_contents(&self.families@[i as int]);
            lemma_written(
                self.families@[i as int].tables(),
                self.families@[i as int].mem@,
                r,
            );
        }
        let name: String = self.families[i].name.clone();
        let f: Vec<u8> = self.families[i].wal.append(&rec);
        self.queue(FileOp::Append { file: FileName::Wal { cf: name }, data: f });
        self.families[i].apply(rec);
        proof {
            lemma_contents(&self.families@[i as int]);
            lemma_log_step(
                before.families@,
                self.families@,
                self.manifest@,
                before.disk(),
                self.write_seq,
                self.next_file,
                i as int,
                r,
            );
            assert forall|j: int| 0 <= j < before.families@.len() implies (
            #[trigger] before.families@[j]).levels@.len() == MAX_LEVELS && grown(
                before.families@[j],
                self.families@[j],
            ) by {
                assert(before.families@[j].wf());
                lemma_grown_same(before.families@[j], self.families@[j]);
            }
            if self.in_flight is Some {
                lemma_job_stays(
                    self.in_flight->0,
                    before.families@,
                    self.families@,
                    recovered_edits(self.manifest@),
                    recovered_edits(self.manifest@),
                    self.next_file,
                    self.next_file,
                );
            }
        }
    }

    /// Write the memtable of family `i` to a table of level 0 and empty its log.
    fn flush_memtable_cf(&mut self, i: usize)
        requires
            old(self).wf(),
            i < old(self).families@.len(),
            old(self).next_file < u64::MAX,
        ensures
            final(self).wf(),
            final(self).families@.len() == old(self).families@.len(),
            forall|j: int|
                0 <= j < old(self).families@.len() && j != i ==> (#[trigger] final(self).families@[j])
                    == old(self).families@[j],
            grown(old(self).families@[i as int], final(self).families@[i as int]),
            final(self).families@[i as int].contents() == old(self).families@[i as int].contents(),
            final(self).families@[i as int].buried == old(self).families@[i as int].buried,
            final(self).next_file == old(self).next_file + 1,
            final(self).write_seq == old(self).write_seq,
            final(self).in_flight == old(self).in_flight,
            final(self).handed_out == old(self).handed_out,
            final(self).synced == old(self).synced,
            ({
                let t = final(self).families@[i as int].levels@[0]@.last();
                &&& t.wf()
                &&& t.entries() == old(self).families@[i as int].mem.pairs()
                &&& !t.is_damaged()
                &&& t.level() == 0
                &&& final(self).families@[i as int].levels@[0]@ == old(
                    self,
                ).families@[i as int].levels@[0]@.push(t)
                &&& t.name() == table_name(0, old(self).next_file as nat)
                &&& final(self).queued() == old(self).queued() + flush_ops(
                    old(self).families@[i as int].name@,
                    t,
                )
            }),
            final(self).families@[i as int].mem@ == Map::<Seq<u8>, Version>::empty(),
            final(self).families@[i as int].mem.size() == 0,
            final(self).families@[i as int].wal@ == Seq::<u8>::empty(),
            crash_safe(old(self), final(self)),
    {
        let ghost before = *self;
        proof {
            assert(family_ok(
                self.families@[i as int],
                self.disk(),
                files_of(recovered_edits(self.manifest@), self.families@[i as int].name@),
                self.write_seq,
                self.next_file,
            ));
            lemma_pairs_storable(self.families@[i as int].mem.pairs());
        }
        let name: String = self.families[i].name.clone();
        let file: String = sstable_file_name(0, self.next_file);
        let sst: SSTable = SSTable::write_from_memtable(file.clone(), &self.families[i].mem, 0);
        let ghost t = sst;
        let data: Vec<u8> = copy_bytes(sst.file_data().as_slice());
        self.next_file = self.next_file + 1;
        self.queue(
            FileOp::Write { file: FileName::Table { cf: name.clone(), name: file.clone() }, data },
        );
        let record: ManifestRecord = ManifestRecord::AddFile {
            cf: name.clone(),
            level: 0,
            filename: file,
        };
        let f: Vec<u8> = self.manifest.append(&record);
        self.queue(FileOp::Append { file: FileName::Manifest, data: f });
        self.families[i].levels[0].push(sst);
        self.queue(FileOp::Write { file: FileName::Wal { cf: name }, data: Vec::new() });
        self.families[i].wal = Wal::open(Vec::new());
        self.families[i].mem = MemTable::new();
        proof {
            let a = before.families@[i as int];
            let b = self.families@[i as int];
            assert(b.levels@[0]@ =~= a.levels@[0]@.push(t));
            assert(self.queued() =~= before.queued() + flush_ops(a.name@, t));
            assert(b.wal@ =~= Seq::<u8>::empty());
            assert forall|l: int, k: int|
                0 <= l < b.levels@.len() && 0 <= k < b.levels@[l]@.len() implies (
            #[trigger] b.levels@[l]@[k]).wf() by {
                if l > 0 {
                    assert(b.levels@[l] == a.levels@[l]);
                    assert(a.levels@[l]@[k].wf());
                } else if k < a.levels@[0]@.len() {
                    assert(a.levels@[0]@[k].wf());
                }
            }
            lemma_flush_step(
                before.families@,
                self.families@,
                before.manifest@,
                before.disk(),
                self.write_seq,
                before.next_file,
                i as int,
                t,
            );
            assert(b.levels@[0]@.take(a.levels@[0]@.len() as int) =~= a.levels@[0]@);
            assert forall|j: int| 0 <= j < before.families@.len() implies (
            #[trigger] before.families@[j]).levels@.len() == MAX_LEVELS && grown(
                before.families@[j],
                self.families@[j],
            ) by {
                assert(before.families@[j].wf());
                if j != i {
                    lemma_grown_same(before.families@[j], self.families@[j]);
                }
            }
            if self.in_flight is Some {
                let job = self.in_flight->0;
                let es = recovered_edits(before.manifest@);
                let fresh = table_name((job.level + 1) as nat, job.seq as nat);
                lemma_files_push(es, record@, job.cf_name@);
                law_table_name_keeps_seq((job.level + 1) as nat, job.seq);
                law_table_name_keeps_seq(0, before.next_file);
                lemma_lists_push(files_of(es, job.cf_name@), (0u32, t.name()), fresh);
                lemma_job_stays(
                    job,
                    before.families@,
                    self.families@,
                    es,
                    recovered_edits(self.manifest@),
                    before.next_file,
                    self.next_file,
                );
            }
            before.lemma_flush_safe(self, i as int, t);
        }
    }
}

// ---- choosing files to compact ---------------------------------------------------

/// How many bytes the tables of a level have.
pub open spec fn level_bytes(files: Seq<SSTable>) -> nat
    decreases files.len(),
{
    if files.len() == 0 {
        0
    } else {
        level_bytes(files.drop_last()) + files.last().bytes().len()
    }
}

/// How many bytes a level may have: ten times as many as the level above it.
pub open spec fn level_budget(level: nat) -> nat
    decreases level,
{
    if level <= 1 {
        L1_BASE_BYTES as nat
    } else {
        SIZE_RATIO as nat * level_budget((level - 1) as nat)
    }
}

/// The first of the levels from `l` on that has too many bytes and a level below it.
pub open spec fn first_over_budget(cf: CfState, l: int) -> Option<int>
    decreases MAX_LEVELS - l,
{
    if l < 1 || l + 1 >= MAX_LEVELS {
        None
    } else if level_bytes(cf.levels@[l]@) > level_budget(l as nat) {
        Some(l)
    } else {
        first_over_budget(cf, l + 1)
    }
}

/// The level of a family that is to be compacted next: level 0 if it has too many
/// files, else the first with too many bytes.
pub open spec fn level_to_compact(cf: CfState) -> Option<int> {
    if cf.levels@[0]@.len() >= L0_MAX_FILES {
        Some(0int)
    } else {
        first_over_budget(cf, 1)
    }
}

/// The job that compacts `level` of a family: all of level 0, or the oldest file
/// of another level, and all of the next level.
pub open spec fn is_job_for(job: CompactionJob, cf: CfState, level: int, seq: u64) -> bool {
    &&& job.cf_name@ == cf.name@
    &&& job.level == level
    &&& job.seq == seq
    &&& job.sources@.len() == (if level == 0 {
        cf.levels@[0]@.len()
    } else {
        1
    })
    &&& string_views(job.sources@) == table_names(
        cf.levels@[level]@.take(job.sources@.len() as int),
    )
    &&& string_views(job.targets@) == table_names(cf.levels@[level + 1]@)
    &&& job.drop_tombstones == (if level == 0 {
        forall|l: int| 2 <= l < MAX_LEVELS ==> (#[trigger] cf.levels@[l])@.len() == 0
    } else {
        level + 2 == MAX_LEVELS
    })
}

/// The names of the first `n` tables.
fn first_names(files: &Vec<SSTable>, n: usize) -> (r: Vec<String>)
    requires
        n <= files@.len(),
    ensures
        r@.len() == n,
        string_views(r@) == table_names(files@.take(n as int)),
{
    let mut r: Vec<String> = Vec::new();
    let mut i: usize = 0;
    while i < n
        invariant
            i <= n <= files@.len(),
            r@.len() == i,
            forall|j: int| 0 <= j < i ==> (#[trigger] r@[j])@ == files@[j].name(),
        decreases n - i,
    {
        r.push(files[i].file_name().clone());
        i = i + 1;
    }
    assert(string_views(r@) =~= table_names(files@.take(n as int)));
    r
}

/// Whether the tables of a level have more than `budget` bytes.
fn is_over_budget(files: &Vec<SSTable>, budget: u64) -> (r: bool)
    requires
        budget < u64::MAX,
    ensures
        r == (level_bytes(files@) > budget),
{
    let mut total: u64 = 0;
    let mut i: usize = 0;
    assert(files@.take(0) =~= Seq::<SSTable>::empty());
    while i < files.len()
        invariant
            i <= files@.len(),
            total == (if level_bytes(files@.take(i as int)) > u64::MAX {
                u64::MAX as nat
            } else {
                level_bytes(files@.take(i as int))
            }),
        decreases files@.len() - i,
    {
        proof {
            let t = files@.take(i + 1);
            assert(t.drop_last() =~= files@.take(i as int));
            assert(t.last() == files@[i as int]);
        }
        total = total.saturating_add(files[i].file_data().len() as u64);
        i = i + 1;
    }
    assert(files@.take(i as int) =~= files@);
    total > budget
}

/// Which level of a family is to be compacted next.
fn find_level(cf: &CfState) -> (r: Option<usize>)
    requires
        cf.wf(),
    ensures
        match r {
            Some(l) => level_to_compact(*cf) == Some(l as int) && l + 1 < MAX_LEVELS
                && cf.levels@[l as int]@.len() > 0,
            None => level_to_compact(*cf) is None,
        },
{
    if l0_needs_compaction(cf.levels[0].as_slice()) {
        return Some(0);
    }
    let mut budget: u64 = L1_BASE_BYTES;
    let mut l: usize = 1;
    while l < MAX_LEVELS - 1
        invariant
            cf.wf(),
            1 <= l <= MAX_LEVELS - 1,
            budget == level_budget(l as nat),
            l == 1 ==> budget == 1048576,
            l == 2 ==> budget == 10485760,
            l == 3 ==> budget == 104857600,
            l == 4 ==> budget == 1048576000,
            l == 5 ==> budget == 10485760000,
            l == 6 ==> budget == 104857600000,
            cf.levels@[0]@.len() < L0_MAX_FILES,
            level_to_compact(*cf) == first_over_budget(*cf, l as int),
        decreases MAX_LEVELS - l,
    {
        if is_over_budget(&cf.levels[l], budget) {
            return Some(l);
        }
        budget = budget * (SIZE_RATIO as u64);
        l = l + 1;
    }
    None
}

/// Make the job that compacts `level` of a family.
fn make_job(cf: &CfState, level: usize, seq: u64) -> (job: CompactionJob)
    requires
        cf.wf(),
        level + 1 < MAX_LEVELS,
        cf.levels@[level as int]@.len() > 0,
    ensures
        is_job_for(job, *cf, level as int, seq),
        job_fits(job, *cf),
{
    let n: usize = if level == 0 {
        cf.levels[0].len()
    } else {
        1
    };
    let sources: Vec<String> = first_names(&cf.levels[level], n);
    let m: usize = cf.levels[level + 1].len();
    let targets: Vec<String> = first_names(&cf.levels[level + 1], m);
    assert(cf.levels@[level + 1]@.take(m as int) =~= cf.levels@[level + 1]@);
    let mut drop_tombstones: bool = true;
    if level == 0 {
        let mut l: usize = 2;
        while l < MAX_LEVELS
            invariant
                cf.wf(),
                2 <= l <= MAX_LEVELS,
                drop_tombstones == (forall|k: int|
                    2 <= k < l ==> (#[trigger] cf.levels@[k])@.len() == 0),
            decreases MAX_LEVELS - l,
        {
            let ghost before = drop_tombstones;
            if cf.levels[l].len() > 0 {
                drop_tombstones = false;
            }
            proof {
                if before && drop_tombstones {
                    assert forall|k: int| 2 <= k < l + 1 implies (
                    #[trigger] cf.levels@[k])@.len() == 0 by {}
                }
                if !drop_tombstones && before {
                    assert(cf.levels@[l as int]@.len() != 0);
                }
            }
            l = l + 1;
        }
    } else {
        drop_tombstones = level + 2 == MAX_LEVELS;
    }
    let cf_name: String = cf.name.clone();
    CompactionJob { cf_name, level, sources, targets, drop_tombstones, seq }
}

impl LsmEngine {
    /// The first family with something to compact has position `i`.
    spec fn first_to_compact(&self, i: int) -> bool {
        &&& 0 <= i < self.families@.len()
        &&& level_to_compact(self.families@[i]) is Some
        &&& forall|j: int| 0 <= j < i ==> level_to_compact(#[trigger] self.families@[j]) is None
    }

    /// The next job, if any family has something to compact.
    fn find_compaction_job(&self) -> (r: Option<CompactionJob>)
        requires
            self.wf(),
        ensures
            match r {
                Some(job) => exists|i: int|
                    #[trigger] self.first_to_compact(i) && is_job_for(
                        job,
                        self.families@[i],
                        level_to_compact(self.families@[i])->0,
                        self.next_file,
                    ) && job_fits(job, self.families@[i]),
                None => forall|i: int|
                    0 <= i < self.families@.len() ==> level_to_compact(
                        #[trigger] self.families@[i],
                    ) is None,
            },
    {
        let mut i: usize = 0;
        while i < self.families.len()
            invariant
                self.wf(),
                i <= self.families@.len(),
                forall|j: int| 0 <= j < i ==> level_to_compact(#[trigger] self.families@[j]) is None,
            decreases self.families@.len() - i,
        {
            assert(self.families@[i as int].wf());
            match find_level(&self.families[i]) {
                Some(level) => {
                    let job: CompactionJob = make_job(&self.families[i], level, self.next_file);
                    assert(self.first_to_compact(i as int));
                    return Some(job);
                },
                None => {},
            }
            i = i + 1;
        }
        None
    }

    /// Start the next job, if there is one.
    fn try_schedule_compaction(&mut self)
        requires
            old(self).wf(),
            old(self).in_flight is None,
            old(self).next_file < u64::MAX,
        ensures
            final(self).wf(),
            final(self).families == old(self).families,
            final(self).manifest == old(self).manifest,
            final(self).write_seq == old(self).write_seq,
            final(self).ops == old(self).ops,
            final(self).synced == old(self).synced,
            match final(self).in_flight {
                Some(job) => {
                    &&& !final(self).handed_out
                    &&& final(self).next_file == old(self).next_file + 1
                    &&& exists|i: int|
                        #[trigger] old(self).first_to_compact(i) && is_job_for(
                            job,
                            old(self).families@[i],
                            level_to_compact(old(self).families@[i])->0,
                            old(self).next_file,
                        )
                },
                None => {
                    &&& final(self).handed_out == old(self).handed_out
                    &&& final(self).next_file == old(self).next_file
                    &&& forall|i: int|
                        0 <= i < old(self).families@.len() ==> level_to_compact(
                            #[trigger] old(self).families@[i],
                        ) is None
                },
            },
    {
        let ghost before = *self;
        match self.find_compaction_job() {
            Some(job) => {
                let ghost j = job;
                self.next_file = self.next_file + 1;
                self.in_flight = Some(job);
                self.handed_out = false;
                proof {
                    let i = choose|i: int|
                        #[trigger] before.first_to_compact(i) && is_job_for(
                            j,
                            before.families@[i],
                            level_to_compact(before.families@[i])->0,
                            before.next_file,
                        ) && job_fits(j, before.families@[i]);
                    let es = recovered_edits(self.manifest@);
                    let name = before.families@[i].name@;
                    assert(is_family(self.families@, name, i));
                    assert(family_ok(
                        before.families@[i],
                        before.disk(),
                        files_of(es, name),
                        before.write_seq,
                        before.next_file,
                    ));
                    law_table_name_keeps_seq((j.level + 1) as nat, j.seq);
                    let fresh = table_name((j.level + 1) as nat, j.seq as nat);
                    let files = files_of(es, name);
                    if lists(files, fresh) {
                        let a = choose|a: int|
                            0 <= a < files.len() && (#[trigger] files[a]).1 == fresh;
                        assert(seq_in_name(files[a].1) == Some(j.seq));
                    }
                    assert forall|a: int| 0 <= a < self.families@.len() implies family_ok(
                        #[trigger] self.families@[a],
                        self.disk(),
                        files_of(es, self.families@[a].name@),
                        self.write_seq,
                        self.next_file,
                    ) by {
                        lemma_family_frame(
                            before.families@[a],
                            before.disk(),
                            self.disk(),
                            files_of(es, self.families@[a].name@),
                            before.write_seq,
                            before.next_file,
                            self.write_seq,
                            self.next_file,
                        );
                    }
                }
            },
            None => {},
        }
    }
}

// ---- compaction ----------------------------------------------------------------

/// A job with the contents of its files, for a worker to run.
pub struct CompactionTask {
    pub job: CompactionJob,
    pub source_data: Vec<Vec<u8>>,
    pub target_data: Vec<Vec<u8>>,
}

/// What came of a job: the files that were merged, and the table that they were
/// merged into unless nothing was left.
pub struct CompactionResult {
    pub cf_name: String,
    pub target_level: usize,
    pub merged_sources: Vec<String>,
    pub merged_targets: Vec<String>,
    pub new_sst: Option<SSTable>,
    /// The tombstones that were dropped.
    pub dropped: Vec<(Vec<u8>, MemEntry)>,
}

impl CompactionTask {
    /// The level has one below it, and of other levels than 0 one file is merged.
    pub open spec fn wf(&self) -> bool {
        &&& self.job.level + 1 < MAX_LEVELS
        &&& self.job.level > 0 ==> self.source_data@.len() == 1
    }

    /// `r` is what comes of the job.
    pub open spec fn gives(&self, r: CompactionResult) -> bool {
        &&& r.cf_name@ == self.job.cf_name@
        &&& r.target_level == self.job.level + 1
        &&& string_views(r.merged_sources@) == string_views(self.job.sources@)
        &&& string_views(r.merged_targets@) == string_views(self.job.targets@)
        &&& compacted(
            r.new_sst,
            files_layer(self.source_data@),
            files_layer(self.target_data@),
            self.job.drop_tombstones,
            (self.job.level + 1) as nat,
            self.job.seq,
        )
        &&& assoc(pairs(r.dropped@)) == dropped(
            files_layer(self.source_data@),
            files_layer(self.target_data@),
            self.job.drop_tombstones,
        )
    }

    /// Merge the files. Fails if the file of another level than 0 cannot be opened, or a
    /// block is damaged.
    pub fn run(self) -> (r: Result<CompactionResult, EngineError>)
        requires
            self.wf(),
        ensures
            match r {
                Ok(result) => {
                    &&& self.gives(result)
                    &&& self.job.level > 0 ==> table_entries(self.source_data@[0]@) is Some
                    &&& !files_damaged(self.source_data@)
                    &&& !files_damaged(self.target_data@)
                },
                Err(e) => if self.job.level > 0 && table_entries(self.source_data@[0]@) is None {
                    e == open_error(self.source_data@[0]@)
                } else {
                    e == EngineError::InvalidData && (files_damaged(self.source_data@)
                        || files_damaged(self.target_data@))
                },
            },
    {
        let ghost me = self;
        let CompactionTask { job, source_data, target_data } = self;
        let target_level: usize = job.level + 1;
        let merged: MergeOutcome = if job.level == 0 {
            match compact_l0_to_l1(source_data, target_data, job.drop_tombstones, job.seq) {
                Ok(m) => m,
                Err(e) => {
                    return Err(e);
                },
            }
        } else {
            let mut files: Vec<Vec<u8>> = source_data;
            let ghost all = files@;
            let victim: Vec<u8> = files.swap_remove(0);
            proof {
                let layers = all.map_values(|f: Vec<u8>| file_layer(f@));
                assert(layers =~= seq![file_layer(victim@)]);
                assert(layers.drop_last() =~= Seq::<Layer>::empty());
                reveal_with_fuel(stack, 2);
                assert(files_layer(all) =~= file_layer(victim@));
                assert(all[0] == victim);
                assert(files_damaged(all) == file_damaged(victim@));
            }
            match compact_level(job.level, victim, target_data, job.drop_tombstones, job.seq) {
                Ok(m) => m,
                Err(e) => {
                    return Err(e);
                },
            }
        };
        let CompactionJob { cf_name, level: _, sources, targets, drop_tombstones: _, seq: _ } = job;
        Ok(
            CompactionResult {
                cf_name,
                target_level,
                merged_sources: sources,
                merged_targets: targets,
                new_sst: merged.new_sst,
                dropped: merged.dropped,
            },
        )
    }
}

/// The contents of the first `n` tables.
fn first_data(files: &Vec<SSTable>, n: usize) -> (r: Vec<Vec<u8>>)
    requires
        n <= files@.len(),
    ensures
        r@.len() == n,
        forall|i: int| 0 <= i < n ==> (#[trigger] r@[i])@ == files@[i].bytes(),
{
    let mut r: Vec<Vec<u8>> = Vec::new();
    let mut i: usize = 0;
    while i < n
        invariant
            i <= n <= files@.len(),
            r@.len() == i,
            forall|j: int| 0 <= j < i ==> (#[trigger] r@[j])@ == files@[j].bytes(),
        decreases n - i,
    {
        r.push(copy_bytes(files[i].file_data().as_slice()));
        i = i + 1;
    }
    r
}

/// Files show what their tables show.
proof fn lemma_data_layer(data: Seq<Vec<u8>>, files: Seq<SSTable>)
    requires
        data.len() == files.len(),
        forall|i: int| 0 <= i < data.len() ==> (#[trigger] data[i])@ == files[i].bytes(),
        forall|i: int| 0 <= i < files.len() ==> (#[trigger] files[i]).wf(),
    ensures
        files_layer(data) == level_layer(files),
{
    let a = data.map_values(|f: Vec<u8>| file_layer(f@));
    let b = table_layers(files);
    assert forall|i: int| 0 <= i < a.len() implies a[i] == b[i] by {
        let x = data[i];
        assert(files[i].wf());
        lemma_table_is_file(files[i]);
    }
    assert(a =~= b);
}

/// Copies of names.
fn copy_names(v: &Vec<String>) -> (r: Vec<String>)
    ensures
        r@.len() == v@.len(),
        string_views(r@) == string_views(v@),
{
    let mut r: Vec<String> = Vec::new();
    let mut i: usize = 0;
    while i < v.len()
        invariant
            i <= v@.len(),
            r@.len() == i,
            forall|j: int| 0 <= j < i ==> (#[trigger] r@[j])@ == v@[j]@,
        decreases v@.len() - i,
    {
        r.push(v[i].clone());
        i = i + 1;
    }
    assert(string_views(r@) =~= string_views(v@));
    r
}

/// The data are those of the first tables of a list.
pub open spec fn data_of(data: Seq<Vec<u8>>, files: Seq<SSTable>) -> bool {
    &&& data.len() == files.len()
    &&& forall|i: int| 0 <= i < data.len() ==> (#[trigger] data[i])@ == files[i].bytes()
}

impl LsmEngine {
    /// `t` is the task of the job that is under way.
    pub open spec fn hands(&self, t: CompactionTask) -> bool {
        &&& self.job() matches Some(job)
        &&& t.job.cf_name@ == job.cf_name@
        &&& t.job.level == job.level
        &&& string_views(t.job.sources@) == string_views(job.sources@)
        &&& string_views(t.job.targets@) == string_views(job.targets@)
        &&& t.job.drop_tombstones == job.drop_tombstones
        &&& t.job.seq == job.seq
        &&& data_of(
            t.source_data@,
            self.family(job.cf_name@).levels@[job.level as int]@.take(
                job.sources@.len() as int,
            ),
        )
        &&& data_of(
            t.target_data@,
            self.family(job.cf_name@).levels@[job.level + 1]@,
        )
    }

    /// `r` is a result of the job that is under way.
    pub open spec fn expects(&self, r: CompactionResult) -> bool {
        &&& self.job() matches Some(job)
        &&& r.cf_name@ == job.cf_name@
        &&& r.target_level == job.level + 1
        &&& string_views(r.merged_sources@) == string_views(job.sources@)
        &&& string_views(r.merged_targets@) == string_views(job.targets@)
        &&& compacted(
            r.new_sst,
            level_layer(
                self.family(job.cf_name@).levels@[job.level as int]@.take(
                    job.sources@.len() as int,
                ),
            ),
            level_layer(self.family(job.cf_name@).levels@[job.level + 1]@),
            job.drop_tombstones,
            (job.level + 1) as nat,
            job.seq,
        )
        &&& assoc(pairs(r.dropped@)) == dropped(
            level_layer(
                self.family(job.cf_name@).levels@[job.level as int]@.take(
                    job.sources@.len() as int,
                ),
            ),
            level_layer(self.family(job.cf_name@).levels@[job.level + 1]@),
            job.drop_tombstones,
        )
    }

    proof fn lemma_job_family(&self) -> (i: int)
        requires
            self.wf(),
            self.in_flight is Some,
        ensures
            i == self.at((self.in_flight->0).cf_name@),
            is_family(self.families@, (self.in_flight->0).cf_name@, i),
            job_fits(self.in_flight->0, self.families@[i]),
            self.families@[i].wf(),
    {
        let job = self.in_flight->0;
        let i = choose|i: int|
            #[trigger] is_family(self.families@, job.cf_name@, i) && job_fits(
                job,
                self.families@[i],
            );
        self.lemma_at(i);
        assert(family_ok(
            self.families@[i],
            self.disk(),
            files_of(recovered_edits(self.manifest@), self.families@[i].name@),
            self.write_seq,
            self.next_file,
        ));
        i
    }

    /// What the task of the job gives is a result that the engine expects.
    pub proof fn law_task_gives_expected_result(&self, t: CompactionTask, r: CompactionResult)
        requires
            self.wf(),
            self.hands(t),
            t.gives(r),
        ensures
            self.expects(r),
    {
        let i = self.lemma_job_family();
        let job = self.in_flight->0;
        let cf = self.families@[i];
        let src = cf.levels@[job.level as int]@.take(job.sources@.len() as int);
        let tgt = cf.levels@[job.level + 1]@;
        assert forall|k: int| 0 <= k < src.len() implies (#[trigger] src[k]).wf() by {
            assert(cf.levels@[job.level as int]@[k].wf());
        }
        assert forall|k: int| 0 <= k < tgt.len() implies (#[trigger] tgt[k]).wf() by {
            assert(cf.levels@[job.level + 1]@[k].wf());
        }
        lemma_data_layer(t.source_data@, src);
        lemma_data_layer(t.target_data@, tgt);
    }

    /// The task of the job that is under way, once.
    pub fn take_task(&mut self) -> (r: Option<CompactionTask>)
        requires
            old(self).wf(),
        ensures
            final(self).wf(),
            final(self).families() == old(self).families(),
            forall|cf: Seq<char>| #[trigger]
                final(self).contents(cf) == old(self).contents(cf),
            forall|cf: Seq<char>| #[trigger] final(self).history(cf) == old(self).history(cf),
            forall|cf: Seq<char>| #[trigger] final(self).family(cf) == old(self).family(cf),
            final(self).file_number() == old(self).file_number(),
            final(self).job() == old(self).job(),
            final(self).next_seq() == old(self).next_seq(),
            final(self).queued() == old(self).queued(),
            final(self).synced() == old(self).synced(),
            forall|t: CompactionTask| old(self).hands(t) ==> #[trigger] final(self).hands(t),
            match r {
                Some(t) => t.wf() && final(self).hands(t) && old(self).task_ready(),
                None => !old(self).task_ready(),
            },
            !final(self).task_ready(),
            final(self).is_compacting() == old(self).is_compacting(),
    {
        if self.handed_out {
            return None;
        }
        match &self.in_flight {
            Some(job) => {
                let ghost i = self.lemma_job_family();
                proof {
                    assert(self.has_cf(job.cf_name@)) by {
                        assert(self.families()[i] == job.cf_name@);
                    }
                }
                let i: usize = match self.find(job.cf_name.as_str()) {
                    Some(i) => i,
                    None => {
                        assert(false);
                        return None;
                    },
                };
                proof {
                    self.lemma_at(i as int);
                }
                let n: usize = job.sources.len();
                let source_data: Vec<Vec<u8>> = first_data(&self.families[i].levels[job.level], n);
                let m: usize = self.families[i].levels[job.level + 1].len();
                let target_data: Vec<Vec<u8>> = first_data(
                    &self.families[i].levels[job.level + 1],
                    m,
                );
                let task: CompactionTask = CompactionTask {
                    job: CompactionJob {
                        cf_name: job.cf_name.clone(),
                        level: job.level,
                        sources: copy_names(&job.sources),
                        targets: copy_names(&job.targets),
                        drop_tombstones: job.drop_tombstones,
                        seq: job.seq,
                    },
                    source_data,
                    target_data,
                };
                proof {
                    let tgt = self.families@[i as int].levels@[job.level + 1]@;
                    assert(tgt.take(m as int) =~= tgt);
                }
                self.handed_out = true;
                Some(task)
            },
            None => None,
        }
    }

    /// A job is under way.
    pub open spec fn is_compacting(&self) -> bool {
        self.job() is Some
    }

    /// There is a task to be taken.
    pub closed spec fn task_ready(&self) -> bool {
        self.in_flight is Some && !self.handed_out
    }
}

/// The operations of a compaction: the new file is written, the edits are logged with
/// one append, and then the merged files are deleted.
pub open spec fn compaction_ops(
    cf: Seq<char>,
    gone: Seq<Seq<char>>,
    level: u32,
    t: Option<SSTable>,
) -> Seq<Op> {
    (match t {
        Some(t) => seq![Op::Write(FileId::Table(cf, t.name()), t.bytes())],
        None => Seq::<Op>::empty(),
    }) + seq![Op::Append(FileId::Manifest, manifest_of(compaction_edits(cf, gone, level, t)))]
        + gone.map_values(|f: Seq<char>| Op::Remove(FileId::Table(cf, f)))
}

/// Records that take names out of a family.
fn push_removals(out: &mut Vec<ManifestRecord>, cf: &String, names: &Vec<String>)
    ensures
        edit_views(final(out)@) == edit_views(old(out)@) + removals(cf@, string_views(names@)),
{
    let ghost start = edit_views(out@);
    let ghost all = string_views(names@);
    let mut i: usize = 0;
    assert(start + removals(cf@, all.take(0)) =~= start);
    while i < names.len()
        invariant
            i <= names@.len(),
            all == string_views(names@),
            edit_views(out@) == start + removals(cf@, all.take(i as int)),
        decreases names@.len() - i,
    {
        let ghost before = edit_views(out@);
        let rec: ManifestRecord = ManifestRecord::RemoveFile {
            cf: cf.clone(),
            filename: names[i].clone(),
        };
        let ghost e = rec@;
        out.push(rec);
        proof {
            assert(edit_views(out@) =~= before.push(e));
            assert(removals(cf@, all.take(i + 1)) =~= removals(cf@, all.take(i as int)).push(e));
            assert(edit_views(out@) =~= start + removals(cf@, all.take(i + 1)));
        }
        i = i + 1;
    }
    assert(all.take(i as int) =~= all);
}

impl LsmEngine {
    /// Queue the deletion of table files of a family.
    fn queue_removes(&mut self, cf: &String, names: &Vec<String>)
        ensures
            final(self).families == old(self).families,
            final(self).manifest == old(self).manifest,
            final(self).next_file == old(self).next_file,
            final(self).write_seq == old(self).write_seq,
            final(self).in_flight == old(self).in_flight,
            final(self).handed_out == old(self).handed_out,
            final(self).synced == old(self).synced,
            final(self).queued() == old(self).queued() + string_views(names@).map_values(
                |f: Seq<char>| Op::Remove(FileId::Table(cf@, f)),
            ),
            forall|f: FileId|
                (forall|n: Seq<char>|
                    string_views(names@).contains(n) ==> f != FileId::Table(cf@, n))
                    ==> #[trigger] content(final(self).disk(), f) == content(old(self).disk(), f),
    {
        let ghost all = string_views(names@);
        let ghost ops = all.map_values(|f: Seq<char>| Op::Remove(FileId::Table(cf@, f)));
        let ghost start = self.queued();
        let mut i: usize = 0;
        assert(start + ops.take(0) =~= start);
        while i < names.len()
            invariant
                i <= names@.len(),
                all == string_views(names@),
                ops == all.map_values(|f: Seq<char>| Op::Remove(FileId::Table(cf@, f))),
                start == old(self).queued(),
                self.families == old(self).families,
                self.manifest == old(self).manifest,
                self.next_file == old(self).next_file,
                self.write_seq == old(self).write_seq,
                self.in_flight == old(self).in_flight,
                self.handed_out == old(self).handed_out,
                self.synced == old(self).synced,
                self.queued() == start + ops.take(i as int),
                forall|f: FileId|
                    (forall|n: Seq<char>| all.contains(n) ==> f != FileId::Table(cf@, n))
                        ==> #[trigger] content(self.disk(), f) == content(old(self).disk(), f),
            decreases names@.len() - i,
        {
            let name: String = names[i].clone();
            let ghost d = self.disk();
            let ghost op = Op::Remove(FileId::Table(cf@, name@));
            assert(all[i as int] == name@);
            self.queue(FileOp::Remove { file: FileName::Table { cf: cf.clone(), name } });
            proof {
                assert forall|f: FileId|
                    (forall|n: Seq<char>| all.contains(n) ==> f != FileId::Table(cf@, n)) implies
                    #[trigger] content(self.disk(), f) == content(old(self).disk(), f) by {
                    assert(all.contains(all[i as int]));
                    assert(content(self.disk(), f) == content(d, f));
                }
                assert(ops.take(i + 1) =~= ops.take(i as int).push(op));
                assert(self.queued() =~= start + ops.take(i + 1));
            }
            i = i + 1;
        }
        assert(ops.take(i as int) =~= ops);
    }

    /// Queue the operations of a compaction and log its edit.
    fn log_compaction(
        &mut self,
        cf: &String,
        sources: &Vec<String>,
        targets: &Vec<String>,
        level: u32,
        new_sst: &Option<SSTable>,
    )
        requires
            *new_sst matches Some(t) ==> !string_views(sources@).contains(t.name())
                && !string_views(targets@).contains(t.name()),
        ensures
            final(self).families == old(self).families,
            final(self).next_file == old(self).next_file,
            final(self).write_seq == old(self).write_seq,
            final(self).in_flight == old(self).in_flight,
            final(self).handed_out == old(self).handed_out,
            final(self).synced == old(self).synced,
            final(self).manifest@ == old(self).manifest@ + manifest_of(
                compaction_edits(
                    cf@,
                    string_views(sources@) + string_views(targets@),
                    level,
                    *new_sst,
                ),
            ),
            final(self).queued() == old(self).queued() + compaction_ops(
                cf@,
                string_views(sources@) + string_views(targets@),
                level,
                *new_sst,
            ),
            disk_compacted(
                old(self).disk(),
                final(self).disk(),
                cf@,
                string_views(sources@) + string_views(targets@),
                level,
                *new_sst,
            ),
    {
        let ghost before = *self;
        let ghost s1 = string_views(sources@);
        let ghost s2 = string_views(targets@);
        let ghost gone = s1 + s2;
        let ghost edits = compaction_edits(cf@, gone, level, *new_sst);
        match new_sst {
            Some(table) => {
                let data: Vec<u8> = copy_bytes(table.file_data().as_slice());
                let file: FileName = FileName::Table {
                    cf: cf.clone(),
                    name: table.file_name().clone(),
                };
                self.queue(FileOp::Write { file, data });
            },
            None => {},
        }
        let mut records: Vec<ManifestRecord> = Vec::new();
        push_removals(&mut records, cf, sources);
        push_removals(&mut records, cf, targets);
        assert(edit_views(records@) =~= removals(cf@, gone));
        match new_sst {
            Some(table) => {
                let ghost so_far = edit_views(records@);
                let rec: ManifestRecord = ManifestRecord::AddFile {
                    cf: cf.clone(),
                    level,
                    filename: table.file_name().clone(),
                };
                let ghost e = rec@;
                records.push(rec);
                assert(edit_views(records@) =~= so_far.push(e));
            },
            None => {},
        }
        assert(edit_views(records@) =~= edits);
        let f: Vec<u8> = self.manifest.append_all(&records);
        self.queue(FileOp::Append { file: FileName::Manifest, data: f });
        let ghost d2 = self.disk();
        self.queue_removes(cf, sources);
        let ghost d3 = self.disk();
        self.queue_removes(cf, targets);
        proof {
            assert(gone.map_values(|f: Seq<char>| Op::Remove(FileId::Table(cf@, f)))
                =~= s1.map_values(|f: Seq<char>| Op::Remove(FileId::Table(cf@, f)))
                + s2.map_values(|f: Seq<char>| Op::Remove(FileId::Table(cf@, f))));
            assert(self.queued() =~= before.queued() + compaction_ops(cf@, gone, level, *new_sst));
            let e = self.disk();
            assert forall|f: FileId|
                (forall|m: Seq<char>|
                    s1.contains(m) || s2.contains(m) ==> f != FileId::Table(cf@, m)) implies
                #[trigger] content(e, f) == content(d2, f) by {
                assert(content(d3, f) == content(d2, f));
            }
            assert forall|x: Seq<char>, f: Seq<char>|
                (x != cf@ || !(gone.contains(f) || (*new_sst matches Some(t) && t.name() == f)))
                implies #[trigger] content(e, FileId::Table(x, f)) == content(
                before.disk(),
                FileId::Table(x, f),
            ) by {
                if x == cf@ {
                    if s1.contains(f) {
                        let y = choose|y: int| 0 <= y < s1.len() && s1[y] == f;
                        assert(gone[y] == f);
                    }
                    if s2.contains(f) {
                        let y = choose|y: int| 0 <= y < s2.len() && s2[y] == f;
                        assert(gone[s1.len() + y] == f);
                    }
                }
                assert(content(d2, FileId::Table(x, f)) == content(
                    before.disk(),
                    FileId::Table(x, f),
                ));
            }
        }
    }

    /// Take in the result of the job that was under way: the new table takes the
    /// place of the tables that were merged.
    pub fn apply_compaction_result(&mut self, result: CompactionResult)
        requires
            old(self).wf(),
            old(self).expects(result),
        ensures
            final(self).wf(),
            final(self).families() == old(self).families(),
            forall|cf: Seq<char>|
                old(self).has_cf(cf) ==> live(#[trigger] final(self).contents(cf)) == live(
                    old(self).contents(cf),
                ),
            forall|cf: Seq<char>|
                old(self).has_cf(cf) ==> (#[trigger] final(self).contents(cf)).submap_of(
                    old(self).contents(cf),
                ),
            forall|cf: Seq<char>|
                old(self).has_cf(cf) ==> #[trigger] final(self).history(cf) == old(self).history(
                    cf,
                ),
            final(self).next_seq() == old(self).next_seq(),
            !final(self).is_compacting(),
            final(self).synced() == old(self).synced(),
            crash_safe(old(self), final(self)),
            final(self).queued() == old(self).queued() + compaction_ops(
                result.cf_name@,
                string_views(result.merged_sources@) + string_views(result.merged_targets@),
                result.target_level as u32,
                result.new_sst,
            ),
            final(self).file_number() == old(self).file_number(),
            levels_compacted(
                old(self).family(result.cf_name@).levels@,
                final(self).family(result.cf_name@).levels@,
                result.target_level - 1,
                result.merged_sources@.len() as int,
                result.new_sst,
            ),
            final(self).family(result.cf_name@).mem == old(self).family(result.cf_name@).mem,
            final(self).family(result.cf_name@).wal == old(self).family(result.cf_name@).wal,
            forall|cf: Seq<char>|
                old(self).has_cf(cf) && cf != result.cf_name@ ==> #[trigger] final(self).family(cf)
                    == old(self).family(cf),
    {
        let ghost before = *self;
        let ghost job = self.in_flight->0;
        let ghost gi = self.lemma_job_family();
        let ghost s1 = string_views(result.merged_sources@);
        let ghost s2 = string_views(result.merged_targets@);
        let ghost t = result.new_sst;
        assert(self.families()[gi] == result.cf_name@);
        let i: usize = match self.find(result.cf_name.as_str()) {
            Some(i) => i,
            None => {
                assert(false);
                return;
            },
        };
        proof {
            self.lemma_at(i as int);
            self.lemma_fresh_not_gone(i as int);
        }
        let ghost gone = assoc(pairs(result.dropped@));
        let CompactionResult {
            cf_name,
            target_level,
            merged_sources,
            merged_targets,
            new_sst,
            dropped,
        } = result;
        assert(merged_sources@.len() == s1.len() && s1 == string_views(job.sources@));
        let level: usize = target_level - 1;
        let n: usize = merged_sources.len();
        self.log_compaction(
            &cf_name,
            &merged_sources,
            &merged_targets,
            target_level as u32,
            &new_sst,
        );
        let rest: Vec<SSTable> = self.families[i].levels[level].split_off(n);
        self.families[i].levels[level] = rest;
        let mut target: Vec<SSTable> = Vec::new();
        match new_sst {
            Some(table) => {
                target.push(table);
            },
            None => {},
        }
        let ghost made = target@;
        self.families[i].levels[level + 1] = target;
        insert_all(&mut self.families[i].buried, dropped);
        self.in_flight = None;
        proof {
            assert(made =~= (match t {
                Some(t) => seq![t],
                None => Seq::<SSTable>::empty(),
            }));
            before.lemma_compacted(self, i as int, t);
            before.lemma_compact_safe(self, i as int, t);
        }
    }

    /// The engine after a compaction.
    proof fn lemma_compacted(&self, after: &LsmEngine, i: int, t: Option<SSTable>)
        requires
            self.wf(),
            self.in_flight is Some,
            is_family(self.families@, (self.in_flight->0).cf_name@, i),
            job_fits(self.in_flight->0, self.families@[i]),
            ({
                let job = self.in_flight->0;
                let cf = self.families@[i];
                let n = job.sources@.len() as int;
                let gone = string_views(job.sources@) + string_views(job.targets@);
                &&& compacted(
                    t,
                    level_layer(cf.levels@[job.level as int]@.take(n)),
                    level_layer(cf.levels@[job.level + 1]@),
                    job.drop_tombstones,
                    (job.level + 1) as nat,
                    job.seq,
                )
                &&& disk_compacted(
                    self.disk(),
                    after.disk(),
                    cf.name@,
                    gone,
                    (job.level + 1) as u32,
                    t,
                )
                &&& after.manifest@ == self.manifest@ + manifest_of(
                    compaction_edits(cf.name@, gone, (job.level + 1) as u32, t),
                )
                &&& levels_compacted(
                    cf.levels@,
                    after.families@[i].levels@,
                    job.level as int,
                    n,
                    t,
                )
                &&& after.families@[i].buried@ == cf.buried@.union_prefer_right(
                    dropped(
                        level_layer(cf.levels@[job.level as int]@.take(n)),
                        level_layer(cf.levels@[job.level + 1]@),
                        job.drop_tombstones,
                    ),
                )
                &&& after.families@[i].buried.wf()
            }),
            after.families@.len() == self.families@.len(),
            forall|j: int|
                0 <= j < self.families@.len() && j != i ==> (#[trigger] after.families@[j])
                    == self.families@[j],
            after.families@[i].name == self.families@[i].name,
            after.families@[i].wal == self.families@[i].wal,
            after.families@[i].mem == self.families@[i].mem,
            after.families@[i].imm == self.families@[i].imm,
            after.write_seq == self.write_seq,
            after.next_file == self.next_file,
            after.in_flight is None,
        ensures
            after.wf(),
            after.families() == self.families(),
            forall|cf: Seq<char>|
                self.has_cf(cf) ==> live(#[trigger] after.contents(cf)) == live(self.contents(cf)),
            forall|cf: Seq<char>|
                self.has_cf(cf) ==> (#[trigger] after.contents(cf)).submap_of(self.contents(cf)),
            forall|cf: Seq<char>|
                self.has_cf(cf) ==> #[trigger] after.history(cf) == self.history(cf),
            self.family((self.in_flight->0).cf_name@) == self.families@[i],
            after.family((self.in_flight->0).cf_name@) == after.families@[i],
            forall|cf: Seq<char>|
                self.has_cf(cf) && cf != (self.in_flight->0).cf_name@ ==> #[trigger] after.family(
                    cf,
                ) == self.family(cf),
    {
        let job = self.in_flight->0;
        let a = self.families@[i];
        let b = after.families@[i];
        let n = job.sources@.len() as int;
        let src = a.levels@[job.level as int]@.take(n);
        let tgt = a.levels@[job.level + 1]@;
        assert(names_of(src) =~= table_names(src));
        assert(names_of(tgt) =~= table_names(tgt));
        self.lemma_at(i);
        assert(family_ok(
            a,
            self.disk(),
            files_of(recovered_edits(self.manifest@), a.name@),
            self.write_seq,
            self.next_file,
        ));
        assert forall|l: int, k: int|
            0 <= l < b.levels@.len() && 0 <= k < b.levels@[l]@.len() implies (
        #[trigger] b.levels@[l]@[k]).wf() by {
            if l == job.level {
                assert(a.levels@[l]@[k + n].wf());
            } else if l != job.level + 1 {
                assert(a.levels@[l]@[k].wf());
            }
        }
        lemma_compact_step(
            self.families@,
            after.families@,
            self.manifest@,
            self.disk(),
            after.disk(),
            self.write_seq,
            self.next_file,
            i,
            job.level as int,
            n,
            t,
            job.drop_tombstones,
            job.seq,
        );
        assert(family_names(after.families@) =~= family_names(self.families@));
        assert forall|cf: Seq<char>| self.has_cf(cf) implies live(#[trigger] after.contents(cf))
            == live(self.contents(cf)) && after.contents(cf).submap_of(self.contents(cf)) by {
            let x = choose|x: int| 0 <= x < self.families().len() && self.families()[x] == cf;
            self.lemma_at(x);
            after.lemma_at(x);
        }
        after.lemma_at(i);
        assert forall|cf: Seq<char>| self.has_cf(cf) implies #[trigger] after.history(cf)
            == self.history(cf) by {
            let x = choose|x: int| 0 <= x < self.families().len() && self.families()[x] == cf;
            self.lemma_at(x);
            after.lemma_at(x);
            assert(self.history(cf) == self.families@[x].history());
            assert(after.history(cf) == after.families@[x].history());
        }
        assert forall|cf: Seq<char>|
            self.has_cf(cf) && cf != job.cf_name@ implies #[trigger] after.family(cf)
            == self.family(cf) by {
            let x = choose|x: int| 0 <= x < self.families().len() && self.families()[x] == cf;
            self.lemma_at(x);
            after.lemma_at(x);
        }
    }

    /// The name of the new file is none of those that were merged.
    proof fn lemma_fresh_not_gone(&self, i: int)
        requires
            self.wf(),
            self.in_flight is Some,
            is_family(self.families@, (self.in_flight->0).cf_name@, i),
            job_fits(self.in_flight->0, self.families@[i]),
        ensures
            ({
                let job = self.in_flight->0;
                let fresh = table_name((job.level + 1) as nat, job.seq as nat);
                !string_views(job.sources@).contains(fresh) && !string_views(job.targets@).contains(
                    fresh,
                )
            }),
    {
        let job = self.in_flight->0;
        let fresh = table_name((job.level + 1) as nat, job.seq as nat);
        let cf = self.families@[i];
        let files = files_of(recovered_edits(self.manifest@), cf.name@);
        assert(family_ok(cf, self.disk(), files, self.write_seq, self.next_file));
        let s1 = string_views(job.sources@);
        let s2 = string_views(job.targets@);
        if s1.contains(fresh) {
            let g = choose|g: int| 0 <= g < s1.len() && s1[g] == fresh;
            let src = cf.levels@[job.level as int]@;
            assert(s1[g] == table_names(src.take(job.sources@.len() as int))[g]);
            let v = level_files(src);
            assert(v == valid_tables(self.disk(), cf.name@, files, job.level as int));
            assert(v[g].0 == fresh);
            let j = lemma_valid_listed(self.disk(), cf.name@, files, job.level as int, g);
            assert(lists(files, fresh));
        }
        if s2.contains(fresh) {
            let h = choose|h: int| 0 <= h < s2.len() && s2[h] == fresh;
            let tgt = cf.levels@[job.level + 1]@;
            assert(s2[h] == table_names(tgt)[h]);
            let v = level_files(tgt);
            assert(v == valid_tables(self.disk(), cf.name@, files, job.level + 1));
            assert(v[h].0 == fresh);
            let j = lemma_valid_listed(self.disk(), cf.name@, files, job.level + 1, h);
            assert(lists(files, fresh));
        }
    }
}

impl LsmEngine {
    /// What is expected of the job that is under way stays the same when only
    /// tables of level 0 were added.
    proof fn lemma_job_kept(&self, after: &LsmEngine)
        requires
            self.wf(),
            after.wf(),
            after.in_flight == self.in_flight,
            self.families@.len() <= after.families@.len(),
            forall|i: int|
                0 <= i < self.families@.len() ==> grown(
                    #[trigger] self.families@[i],
                    after.families@[i],
                ),
        ensures
            forall|t: CompactionTask| self.hands(t) ==> #[trigger] after.hands(t),
            forall|r: CompactionResult| self.expects(r) ==> #[trigger] after.expects(r),
    {
        if self.in_flight is Some {
            let job = self.in_flight->0;
            let i = self.lemma_job_family();
            let a = self.families@[i];
            let b = after.families@[i];
            assert(grown(a, b));
            after.lemma_at(i);
            let n = job.sources@.len() as int;
            let x = a.levels@[job.level as int]@;
            let y = b.levels@[job.level as int]@;
            assert(x.take(n) =~= y.take(n)) by {
                if job.level == 0 {
                    assert forall|j: int| 0 <= j < n implies x[j] == y[j] by {
                        assert(y.take(x.len() as int)[j] == x[j]);
                    }
                }
            }
        }
    }
}

impl LsmEngine {
    /// `after` came from this engine by flushing family `i` to the table `t`.
    spec fn flushed(&self, after: &LsmEngine, i: int, t: SSTable) -> bool {
        let a = self.families@[i];
        let b = after.families@[i];
        &&& self.wf()
        &&& after.wf()
        &&& 0 <= i < self.families@.len()
        &&& after.families@.len() == self.families@.len()
        &&& forall|j: int|
            0 <= j < self.families@.len() && j != i ==> (#[trigger] after.families@[j])
                == self.families@[j]
        &&& b.name@ == a.name@
        &&& b.levels@.len() == a.levels@.len()
        &&& forall|l: int| 1 <= l < MAX_LEVELS ==> (#[trigger] b.levels@[l])@ == a.levels@[l]@
        &&& b.levels@[0]@ == a.levels@[0]@.push(t)
        &&& t@ == a.mem@
        &&& t.name() == table_name(0, self.next_file as nat)
        &&& after.write_seq == self.write_seq
        &&& after.next_file == self.next_file + 1
        &&& after.synced() == self.synced()
        &&& after.queued() == self.queued() + flush_ops(a.name@, t)
    }

    /// `after` came from this engine by taking in the table `t` of the job that was
    /// under way for family `i`.
    spec fn took(&self, after: &LsmEngine, i: int, t: Option<SSTable>) -> bool {
        let job = self.in_flight->0;
        let a = self.families@[i];
        let b = after.families@[i];
        let n = job.sources@.len() as int;
        let gone = string_views(job.sources@) + string_views(job.targets@);
        &&& self.wf()
        &&& after.wf()
        &&& self.in_flight is Some
        &&& is_family(self.families@, job.cf_name@, i)
        &&& job_fits(job, a)
        &&& compacted(
            t,
            level_layer(a.levels@[job.level as int]@.take(n)),
            level_layer(a.levels@[job.level + 1]@),
            job.drop_tombstones,
            (job.level + 1) as nat,
            job.seq,
        )
        &&& levels_compacted(a.levels@, b.levels@, job.level as int, n, t)
        &&& after.families@.len() == self.families@.len()
        &&& forall|j: int|
            0 <= j < self.families@.len() && j != i ==> (#[trigger] after.families@[j])
                == self.families@[j]
        &&& b.name == a.name
        &&& b.wal == a.wal
        &&& b.mem == a.mem
        &&& b.imm == a.imm
        &&& b.buried@ == a.buried@.union_prefer_right(
            dropped(
                level_layer(a.levels@[job.level as int]@.take(n)),
                level_layer(a.levels@[job.level + 1]@),
                job.drop_tombstones,
            ),
        )
        &&& after.write_seq == self.write_seq
        &&& after.next_file == self.next_file
        &&& after.manifest@ == self.manifest@ + manifest_of(
            compaction_edits(a.name@, gone, (job.level + 1) as u32, t),
        )
        &&& after.synced() == self.synced()
        &&& after.queued() == self.queued() + compaction_ops(
            a.name@,
            gone,
            (job.level + 1) as u32,
            t,
        )
    }
}

} // verus!
