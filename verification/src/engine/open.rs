//! Opening the engine, and column families.

use crate::buffer::replay_bytes;
use crate::bytes::{bytes_eq, copy_bytes};
use crate::compaction::reverse;
use crate::engine::{grown, lemma_grown_same, lemma_job_stays, CompactionResult, CompactionTask,
    LsmEngine};
use crate::engine::crash::crash_safe;
use crate::error::EngineError;
use crate::family::{lemma_contents, levels_written_by, CfState, MAX_LEVELS};
use crate::listing::{law_clean_lists_each_file_once, once, once_files, relist};
use crate::manifest::{edit_frame, edits_fit, families_of, file_list, files_of,
    law_manifest_returns_what_was_logged, lemma_recovered_edits_fit, listed, manifest_of, name_fits,
    names, recovered_edits, Edit, Manifest, ManifestRecord, ManifestState};
use crate::memtable::Version;
use crate::recovery::{distinct, family_names, family_ok, lemma_create_step, lemma_files_push,
    lemma_valid_frame, level_files, sound_edits, valid_tables, FileList};
use crate::replay::{lemma_replay_push, replay};
use crate::sstable::{open_error, SSTable};
use crate::storage::{content, op_views, Disk, FileId, FileName, FileOp, Op, Storage};
use crate::stored::{edits_in, families_in, families_newest, family_newest, files_in, files_newest,
    later, lemma_families, lemma_names_bound, lemma_records_bound, lemma_replay_written,
    lemma_stored_tables, names_newest, openable, records_newest, stored,
    tables_newest};
use crate::table_format::table_entries;
use crate::text::seq_from_filename;
use crate::wal::{all_fit, fits, law_recovery_returns_what_was_logged, lemma_log_push,
    lemma_recovered_fits, log_of, records, recovered, Record, Wal, WalRecord};
use vstd::prelude::*;

verus! {

/// A family as it is read from its files.
pub open spec fn loaded(cf: CfState, d: Disk, name: Seq<char>, files: FileList, newest: u64) -> bool {
    let rs = recovered(content(d, FileId::Wal(name)));
    &&& cf.wf()
    &&& cf.name@ == name
    &&& cf.wal@ == log_of(rs)
    &&& cf.mem@ == replay(cf.tables(), rs)
    &&& cf.mem.size() == replay_bytes(cf.tables(), rs)
    &&& forall|l: int|
        0 <= l < MAX_LEVELS ==> level_files((#[trigger] cf.levels@[l])@) == valid_tables(
            d,
            name,
            files,
            l,
        )
    &&& newest == later(tables_newest(d, name, files), records_newest(rs))
    &&& levels_written_by(cf.levels@, newest)
    &&& cf.buried@ == Map::<Seq<u8>, Version>::empty()
}

/// The engine holds what the files of `d` hold, and has the families `asked` too.
pub open spec fn opened(e: &LsmEngine, d: Disk, asked: Seq<Seq<char>>) -> bool {
    &&& e.wf()
    &&& e.synced() == d
    &&& e.families() == with_names(families_in(d), asked)
    &&& forall|cf: Seq<char>|
        families_in(d).contains(cf) ==> #[trigger] e.contents(cf) == stored(d, cf)
    &&& forall|cf: Seq<char>|
        asked.contains(cf) && !families_in(d).contains(cf) ==> #[trigger] e.contents(cf)
            == Map::<Seq<u8>, Version>::empty()
    &&& e.next_seq() == families_newest(d, families_in(d)) + 1
    &&& !e.is_compacting()
    &&& forall|cf: Seq<char>|
        families_in(d).contains(cf) ==> loaded(
            #[trigger] e.family(cf),
            d,
            cf,
            files_in(d, cf),
            family_newest(d, cf),
        )
    &&& forall|cf: Seq<char>|
        asked.contains(cf) && !families_in(d).contains(cf) ==> is_new(#[trigger] e.family(cf), cf)
    &&& e.file_number() == files_newest(d, families_in(d)) + 1
    &&& e.queued() == manifest_repair(d) + log_repairs(d, families_in(d)) + creations(
        families_in(d),
        asked,
    )
}

/// A family to which nothing was written.
pub open spec fn is_new(cf: CfState, name: Seq<char>) -> bool {
    &&& cf.name@ == name
    &&& cf.wal@ == Seq::<u8>::empty()
    &&& cf.mem@ == Map::<Seq<u8>, Version>::empty()
    &&& cf.mem.size() == 0
    &&& cf.levels@.len() == MAX_LEVELS
    &&& forall|l: int| 0 <= l < MAX_LEVELS ==> (#[trigger] cf.levels@[l])@.len() == 0
    &&& cf.buried@ == Map::<Seq<u8>, Version>::empty()
}

/// A manifest of which not all can be read, or that lists a file twice or one of a family
/// that was not created, is replaced by one that holds what can be read and does neither.
pub open spec fn manifest_repair(d: Disk) -> Seq<Op> {
    if manifest_of(edits_in(d)) == content(d, FileId::Manifest) {
        Seq::empty()
    } else {
        seq![Op::Write(FileId::Manifest, manifest_of(edits_in(d)))]
    }
}

/// The log of a family of which not all can be read is replaced by what can be.
pub open spec fn log_repair(d: Disk, cf: Seq<char>) -> Seq<Op> {
    let log = content(d, FileId::Wal(cf));
    if log_of(recovered(log)) == log {
        Seq::empty()
    } else {
        seq![Op::Write(FileId::Wal(cf), log_of(recovered(log)))]
    }
}

/// The logs of families are repaired one after the other.
pub open spec fn log_repairs(d: Disk, list: Seq<Seq<char>>) -> Seq<Op>
    decreases list.len(),
{
    if list.len() == 0 {
        Seq::empty()
    } else {
        log_repairs(d, list.drop_last()) + log_repair(d, list.last())
    }
}

/// The families of `asked` that are lacking are created one after the other.
pub open spec fn creations(have: Seq<Seq<char>>, asked: Seq<Seq<char>>) -> Seq<Op>
    decreases asked.len(),
{
    if asked.len() == 0 {
        Seq::empty()
    } else if with_names(have, asked.drop_last()).contains(asked.last()) {
        creations(have, asked.drop_last())
    } else {
        creations(have, asked.drop_last()) + create_ops(asked.last())
    }
}

/// A list of names with those of `asked` that it lacks behind it.
pub open spec fn with_names(have: Seq<Seq<char>>, asked: Seq<Seq<char>>) -> Seq<Seq<char>>
    decreases asked.len(),
{
    if asked.len() == 0 {
        have
    } else {
        let before = with_names(have, asked.drop_last());
        if before.contains(asked.last()) {
            before
        } else {
            before.push(asked.last())
        }
    }
}

/// The names of `with_names` are those of the two lists.
pub proof fn lemma_with_names(have: Seq<Seq<char>>, asked: Seq<Seq<char>>, name: Seq<char>)
    ensures
        with_names(have, asked).contains(name) <==> have.contains(name) || asked.contains(name),
    decreases asked.len(),
{
    if asked.len() > 0 {
        let less = asked.drop_last();
        let before = with_names(have, less);
        let all = with_names(have, asked);
        lemma_with_names(have, less, name);
        lemma_with_names(have, less, asked.last());
        if all.contains(name) && !before.contains(name) {
            assert(asked[asked.len() - 1] == name);
        }
        if before.contains(name) {
            let i = choose|i: int| 0 <= i < before.len() && before[i] == name;
            assert(all[i] == name);
        }
        if less.contains(name) {
            let i = choose|i: int| 0 <= i < less.len() && less[i] == name;
            assert(asked[i] == name);
        }
        if asked.contains(name) && !less.contains(name) {
            let i = choose|i: int| 0 <= i < asked.len() && asked[i] == name;
            if i < less.len() {
                assert(less[i] == name);
            }
            assert(name == asked.last());
            if !before.contains(name) {
                assert(all[all.len() - 1] == name);
            }
        }
    }
}

/// Whether a list has the same name twice.
fn has_repeats(files: &Vec<(u32, String)>) -> (r: bool)
    ensures
        r == !distinct(file_list(files@)),
{
    let ghost all = file_list(files@);
    let mut j: usize = 0;
    while j < files.len()
        invariant
            j <= files@.len(),
            all == file_list(files@),
            forall|a: int, b: int|
                0 <= a < b < j ==> (#[trigger] all[a]).1 != (#[trigger] all[b]).1,
        decreases files@.len() - j,
    {
        let mut i: usize = 0;
        while i < j
            invariant
                i <= j < files@.len(),
                all == file_list(files@),
                forall|a: int| 0 <= a < i ==> (#[trigger] all[a]).1 != all[j as int].1,
            decreases j - i,
        {
            assert(all[i as int].1 == files@[i as int].1@);
            assert(all[j as int].1 == files@[j as int].1@);
            if files[i].1 == files[j].1 {
                return true;
            }
            i = i + 1;
        }
        j = j + 1;
    }
    false
}

/// Whether a manifest lists no file twice and none of a family that was not
/// created.
fn is_sound(state: &ManifestState, Ghost(es): Ghost<Seq<Edit>>) -> (r: bool)
    requires
        state.wf(),
        state.is_after(es),
    ensures
        r == sound_edits(es),
{
    let mut i: usize = 0;
    while i < state.files.len()
        invariant
            i <= state.files@.len(),
            state.wf(),
            state.is_after(es),
            forall|j: int| #![trigger state.files@[j]]
                0 <= j < i ==> distinct(files_of(es, state.files@[j].0@)) && (families_of(
                    es,
                ).contains(state.files@[j].0@) || files_of(es, state.files@[j].0@).len() == 0),
        decreases state.files@.len() - i,
    {
        let ghost name = state.files@[i as int].0@;
        proof {
            state.lemma_listed(i as int);
            assert(listed(state.files@, name) == files_of(es, name));
        }
        if has_repeats(&state.files[i].1) {
            assert(!distinct(files_of(es, name)));
            return false;
        }
        if state.files[i].1.len() > 0 && !state.has_cf(&state.files[i].0) {
            assert(files_of(es, name).len() > 0);
            return false;
        }
        i = i + 1;
    }
    proof {
        assert forall|cf: Seq<char>| distinct(#[trigger] files_of(es, cf)) && (!families_of(
            es,
        ).contains(cf) ==> files_of(es, cf).len() == 0) by {
            assert(listed(state.files@, cf) == files_of(es, cf));
            state.lemma_listed_or_not(cf);
            if exists|j: int| 0 <= j < state.files@.len() && (#[trigger] state.files@[j]).0@ == cf {
                let j = choose|j: int|
                    0 <= j < state.files@.len() && (#[trigger] state.files@[j]).0@ == cf;
                assert(state.files@[j].0@ == cf);
            }
        }
    }
    true
}

/// Read the tables of a family.
fn load_tables(storage: &Storage, name: &String, files: &Vec<(u32, String)>) -> (r: (
    CfState,
    u64,
    u64,
))
    ensures
        r.0.wf(),
        r.0.name@ == name@,
        r.0.wal@ == Seq::<u8>::empty(),
        r.0.mem@ == Map::<Seq<u8>, Version>::empty(),
        r.0.mem.size() == 0,
        r.0.buried@ == Map::<Seq<u8>, Version>::empty(),
        r.1 == tables_newest(storage@, name@, file_list(files@)),
        r.2 == names_newest(file_list(files@)),
        levels_written_by(r.0.levels@, r.1),
        forall|l: int|
            0 <= l < MAX_LEVELS ==> level_files((#[trigger] r.0.levels@[l])@) == valid_tables(
                storage@,
                name@,
                file_list(files@),
                l,
            ),
{
    let ghost all = file_list(files@);
    let ghost d = storage@;
    let mut cf: CfState = CfState::new(name.clone(), Wal::open(Vec::new()));
    assert(cf.wal@ =~= Seq::<u8>::empty());
    let mut newest: u64 = 0;
    let mut newest_file: u64 = 0;
    let mut i: usize = 0;
    proof {
        assert(all.take(0) =~= Seq::<(u32, Seq<char>)>::empty());
        assert forall|l: int| 0 <= l < MAX_LEVELS implies level_files((#[trigger] cf.levels@[l])@)
            == valid_tables(d, name@, all.take(0), l) by {
            assert(level_files(cf.levels@[l]@) =~= Seq::<(Seq<char>, Seq<u8>)>::empty());
        }
    }
    while i < files.len()
        invariant
            i <= files@.len(),
            all == file_list(files@),
            d == storage@,
            cf.wf(),
            cf.name@ == name@,
            cf.wal@ == Seq::<u8>::empty(),
            cf.mem@ == Map::<Seq<u8>, Version>::empty(),
            cf.mem.size() == 0,
            cf.buried@ == Map::<Seq<u8>, Version>::empty(),
            newest == tables_newest(d, name@, all.take(i as int)),
            newest_file == names_newest(all.take(i as int)),
            levels_written_by(cf.levels@, newest),
            forall|l: int|
                0 <= l < MAX_LEVELS ==> level_files((#[trigger] cf.levels@[l])@) == valid_tables(
                    d,
                    name@,
                    all.take(i as int),
                    l,
                ),
        decreases files@.len() - i,
    {
        let ghost before = cf;
        let ghost old_newest = newest;
        let ghost f = all[i as int];
        proof {
            let t = all.take(i + 1);
            assert(t.drop_last() =~= all.take(i as int));
            assert(t.last() == f);
            assert(f == (files@[i as int].0, files@[i as int].1@));
        }
        match seq_from_filename(files[i].1.as_str()) {
            Some(s) => {
                if s > newest_file {
                    newest_file = s;
                }
            },
            None => {},
        }
        let level: u32 = files[i].0;
        let file: FileName = FileName::Table { cf: name.clone(), name: files[i].1.clone() };
        let data: Vec<u8> = storage.read_or_empty(&file);
        match SSTable::open(files[i].1.clone(), data, level) {
            Ok(sst) => {
                if level < MAX_LEVELS as u32 {
                    let ghost t = sst;
                    let m: u64 = sst.max_write_seq();
                    if m > newest {
                        newest = m;
                    }
                    let at: usize = level as usize;
                    cf.levels[at].push(sst);
                    proof {
                        let a = before.levels@;
                        let b = cf.levels@;
                        assert(b[at as int]@ =~= a[at as int]@.push(t));
                        assert forall|l: int, k: int|
                            0 <= l < b.len() && 0 <= k < b[l]@.len() implies (
                        #[trigger] b[l]@[k]).wf() && b[l]@[k].newest() <= newest by {
                            if l == at && k == a[at as int]@.len() {
                            } else {
                                assert(b[l]@[k] == a[l]@[k]);
                                assert(a[l]@[k].newest() <= old_newest);
                            }
                        }
                        assert forall|l: int| 0 <= l < MAX_LEVELS implies level_files(
                            (#[trigger] b[l])@,
                        ) == valid_tables(d, name@, all.take(i + 1), l) by {
                            assert(level_files(a[l]@) == valid_tables(
                                d,
                                name@,
                                all.take(i as int),
                                l,
                            ));
                            if l == at {
                                assert(level_files(b[l]@) =~= level_files(a[l]@).push(
                                    (t.name(), t.bytes()),
                                ));
                            }
                        }
                    }
                } else {
                    assert forall|l: int| 0 <= l < MAX_LEVELS implies level_files(
                        (#[trigger] cf.levels@[l])@,
                    ) == valid_tables(d, name@, all.take(i + 1), l) by {}
                }
            },
            Err(_) => {
                assert forall|l: int| 0 <= l < MAX_LEVELS implies level_files(
                    (#[trigger] cf.levels@[l])@,
                ) == valid_tables(d, name@, all.take(i + 1), l) by {}
            },
        }
        i = i + 1;
    }
    assert(all.take(i as int) =~= all);
    (cf, newest, newest_file)
}

/// Read a family: its tables, and on top of them the records of its log.
fn load_family(storage: &Storage, name: &String, files: &Vec<(u32, String)>) -> (r: (
    CfState,
    u64,
    u64,
))
    ensures
        loaded(r.0, storage@, name@, file_list(files@), r.1),
        r.2 == names_newest(file_list(files@)),
{
    let ghost d = storage@;
    let ghost fl = file_list(files@);
    let (mut cf, tables, newest_file): (CfState, u64, u64) = load_tables(storage, name, files);
    let data: Vec<u8> = storage.read_or_empty(&FileName::Wal { cf: name.clone() });
    let mut left: Vec<WalRecord> = Wal::recover(data.as_slice());
    let ghost rs = records(left@);
    let ghost n = left@.len() as int;
    let ghost base = cf.tables();
    let ghost levels = cf.levels;
    proof {
        lemma_recovered_fits(data@);
    }
    reverse(&mut left);
    let mut newest: u64 = 0;
    assert(rs.take(0) =~= Seq::<Record>::empty());
    while left.len() > 0
        invariant
            n == rs.len(),
            all_fit(rs),
            left@.len() <= n,
            forall|i: int| 0 <= i < left@.len() ==> (#[trigger] left@[i])@ == rs[n - 1 - i],
            cf.wf(),
            cf.name@ == name@,
            cf.levels == levels,
            cf.buried@ == Map::<Seq<u8>, Version>::empty(),
            base == cf.tables(),
            cf.wal@ == log_of(rs.take(n - left@.len())),
            cf.mem@ == replay(base, rs.take(n - left@.len())),
            cf.mem.size() == replay_bytes(base, rs.take(n - left@.len())),
            newest == records_newest(rs.take(n - left@.len())),
        decreases left@.len(),
    {
        let ghost done = rs.take(n - left@.len());
        match left.pop() {
            Some(rec) => {
                let ghost r = rec@;
                proof {
                    let more = rs.take(n - left@.len());
                    assert(r == rs[n - 1 - left@.len()]);
                    assert(more =~= done.push(r));
                    lemma_log_push(done, r);
                    lemma_replay_push(base, done, r);
                    assert(more.drop_last() =~= done);
                    assert(fits(r));
                    lemma_contents(&cf);
                }
                let seq: u64 = rec.seq();
                if seq > newest {
                    newest = seq;
                }
                let _ = cf.wal.append(&rec);
                cf.apply(rec);
            },
            None => {},
        }
    }
    assert(rs.take(n) =~= rs);
    if tables > newest {
        newest = tables;
    }
    proof {
        assert forall|l: int, k: int|
            0 <= l < cf.levels@.len() && 0 <= k < cf.levels@[l]@.len() implies (
        #[trigger] cf.levels@[l]@[k]).newest() <= newest by {
            assert(cf.levels@[l]@[k].newest() <= tables);
        }
    }
    (cf, newest, newest_file)
}

/// A listed file that is left out of a family: the family, the file, and what opening it
/// fails with.
pub type LeftOut = (Seq<char>, Seq<char>, EngineError);

/// The files of a list that are no tables.
pub open spec fn left_out_of(d: Disk, cf: Seq<char>, files: FileList) -> Seq<LeftOut>
    decreases files.len(),
{
    if files.len() == 0 {
        Seq::empty()
    } else {
        let before = left_out_of(d, cf, files.drop_last());
        let data = content(d, FileId::Table(cf, files.last().1));
        if table_entries(data) is None {
            before.push((cf, files.last().1, open_error(data)))
        } else {
            before
        }
    }
}

/// The listed files of families that are no tables.
pub open spec fn left_out(d: Disk, list: Seq<Seq<char>>) -> Seq<LeftOut>
    decreases list.len(),
{
    if list.len() == 0 {
        Seq::empty()
    } else {
        left_out(d, list.drop_last()) + left_out_of(d, list.last(), files_in(d, list.last()))
    }
}

/// Files that are left out, as mathematical values.
pub open spec fn left_out_views(v: Seq<(String, String, EngineError)>) -> Seq<LeftOut> {
    v.map_values(|x: (String, String, EngineError)| (x.0@, x.1@, x.2))
}

/// Add the files of a list that are no tables.
fn note_left_out(
    out: &mut Vec<(String, String, EngineError)>,
    storage: &Storage,
    cf: &String,
    files: &Vec<(u32, String)>,
)
    ensures
        left_out_views(final(out)@) == left_out_views(old(out)@) + left_out_of(
            storage@,
            cf@,
            file_list(files@),
        ),
{
    let ghost start = left_out_views(out@);
    let ghost all = file_list(files@);
    let mut i: usize = 0;
    assert(all.take(0) =~= Seq::<(u32, Seq<char>)>::empty());
    assert(start + left_out_of(storage@, cf@, all.take(0)) =~= start);
    while i < files.len()
        invariant
            i <= files@.len(),
            all == file_list(files@),
            left_out_views(out@) == start + left_out_of(storage@, cf@, all.take(i as int)),
        decreases files@.len() - i,
    {
        let ghost before = left_out_views(out@);
        let ghost so_far = left_out_of(storage@, cf@, all.take(i as int));
        proof {
            let t = all.take(i + 1);
            assert(t.drop_last() =~= all.take(i as int));
            assert(t.last() == (files@[i as int].0, files@[i as int].1@));
        }
        let file: FileName = FileName::Table { cf: cf.clone(), name: files[i].1.clone() };
        let data: Vec<u8> = storage.read_or_empty(&file);
        match SSTable::open(files[i].1.clone(), data, files[i].0) {
            Ok(_) => {},
            Err(e) => {
                let ghost x = (cf@, files@[i as int].1@, e);
                out.push((cf.clone(), files[i].1.clone(), e));
                assert(left_out_views(out@) =~= before.push(x));
                assert(start + so_far.push(x) =~= (start + so_far).push(x));
            },
        }
        i = i + 1;
    }
    assert(all.take(i as int) =~= all);
}

impl LsmEngine {
    /// The files that the manifest lists and that are left out when the database is
    /// opened, because they are no tables.
    pub fn left_out_tables(storage: &Storage) -> (r: Vec<(String, String, EngineError)>)
        ensures
            left_out_views(r@) == left_out(storage@, families_in(storage@)),
    {
        let ghost d = storage@;
        let data: Vec<u8> = storage.read_or_empty(&FileName::Manifest);
        let state: ManifestState = Manifest::recover(data.as_slice());
        let ghost raw = recovered_edits(data@);
        let ghost have = families_in(d);
        proof {
            lemma_recovered_edits_fit(data@);
            law_clean_lists_each_file_once(raw);
        }
        let mut r: Vec<(String, String, EngineError)> = Vec::new();
        let mut i: usize = 0;
        assert(have.take(0) =~= Seq::<Seq<char>>::empty());
        assert(left_out_views(r@) =~= left_out(d, have.take(0)));
        while i < state.cfs.len()
            invariant
                i <= state.cfs@.len(),
                state.wf(),
                state.is_after(raw),
                have == names(state.cfs@),
                have == families_of(raw),
                d == storage@,
                forall|x: Seq<char>|
                    have.contains(x) ==> #[trigger] files_in(d, x) == once(files_of(raw, x)),
                left_out_views(r@) == left_out(d, have.take(i as int)),
            decreases state.cfs@.len() - i,
        {
            let ghost name = have[i as int];
            let files: Vec<(u32, String)> = once_files(&state.files_in(&state.cfs[i]));
            proof {
                let t = have.take(i + 1);
                assert(t.drop_last() =~= have.take(i as int));
                assert(t.last() == name);
                assert(have.contains(name));
                assert(listed(state.files@, name) == files_of(raw, name));
                assert(files_in(d, name) == once(files_of(raw, name)));
            }
            note_left_out(&mut r, storage, &state.cfs[i], &files);
            i = i + 1;
        }
        assert(have.take(i as int) =~= have);
        r
    }

    /// Create a column family, unless there is one of that name.
    pub fn create_cf(&mut self, name: &str) -> (r: Result<(), EngineError>)
        requires
            old(self).wf(),
            name_fits(name@),
        ensures
            r is Ok,
            old(self).has_cf(name@) ==> *final(self) == *old(self),
            !old(self).has_cf(name@) ==> {
                &&& final(self).wf()
                &&& final(self).families() == old(self).families().push(name@)
                &&& final(self).contents(name@) == Map::<Seq<u8>, Version>::empty()
                &&& final(self).history(name@) == Map::<Seq<u8>, Version>::empty()
                &&& forall|cf: Seq<char>|
                    old(self).has_cf(cf) ==> #[trigger] final(self).contents(cf) == old(
                        self,
                    ).contents(cf)
                &&& final(self).next_seq() == old(self).next_seq()
                &&& final(self).synced() == old(self).synced()
                &&& final(self).queued() == old(self).queued() + create_ops(name@)
                &&& crash_safe(old(self), final(self))
                &&& final(self).job() == old(self).job()
                &&& final(self).task_ready() == old(self).task_ready()
                &&& final(self).file_number() == old(self).file_number()
                &&& is_new(final(self).family(name@), name@)
                &&& forall|cf: Seq<char>|
                    old(self).has_cf(cf) ==> #[trigger] final(self).family(cf) == old(self).family(
                        cf,
                    )
            },
            forall|t: CompactionTask|
                old(self).hands(t) ==> #[trigger] final(self).hands(t),
            forall|x: CompactionResult|
                old(self).expects(x) ==> #[trigger] final(self).expects(x),
    {
        if self.find(name).is_some() {
            return Ok(());
        }
        let ghost before = *self;
        let cf_name: String = name.to_owned();
        let cf: CfState = CfState::new(cf_name.clone(), Wal::open(Vec::new()));
        assert(cf.wal@ =~= Seq::<u8>::empty());
        let ghost fam = cf;
        let empty: Vec<u8> = Vec::new();
        assert(empty@ =~= Seq::<u8>::empty());
        self.queue(FileOp::CreateDir { cf: cf_name.clone() });
        self.queue(FileOp::Write { file: FileName::Wal { cf: cf_name.clone() }, data: empty });
        let rec: ManifestRecord = ManifestRecord::CreateCF { name: cf_name };
        let f: Vec<u8> = self.manifest.append(&rec);
        self.queue(FileOp::Append { file: FileName::Manifest, data: f });
        self.families.push(cf);
        proof {
            let es = recovered_edits(before.manifest@);
            assert(self.queued() =~= before.queued() + create_ops(name@));
            lemma_create_step(
                before.families@,
                fam,
                before.manifest@,
                before.disk(),
                self.write_seq,
                self.next_file,
            );
            assert(self.families@ =~= before.families@.push(fam));
            assert forall|j: int| 0 <= j < before.families@.len() implies (
            #[trigger] before.families@[j]).levels@.len() == MAX_LEVELS && grown(
                before.families@[j],
                self.families@[j],
            ) by {
                assert(self.families@[j] == before.families@[j]);
                assert(family_ok(
                    before.families@[j],
                    before.disk(),
                    files_of(es, before.families@[j].name@),
                    before.write_seq,
                    before.next_file,
                ));
                lemma_grown_same(before.families@[j], self.families@[j]);
            }
            if self.in_flight is Some {
                let job = self.in_flight->0;
                lemma_files_push(es, rec@, job.cf_name@);
                lemma_job_stays(
                    job,
                    before.families@,
                    self.families@,
                    es,
                    recovered_edits(self.manifest@),
                    self.next_file,
                    self.next_file,
                );
            }
            assert(family_names(self.families@) =~= family_names(before.families@).push(name@));
            self.lemma_at(before.families@.len() as int);
            assert forall|x: Seq<char>| before.has_cf(x) implies #[trigger] self.contents(x)
                == before.contents(x) by {
                let j = choose|j: int| 0 <= j < before.families().len() && before.families()[j]
                    == x;
                before.lemma_at(j);
                self.lemma_at(j);
            }
            assert forall|x: Seq<char>| before.has_cf(x) implies #[trigger] self.family(x)
                == before.family(x) by {
                let j = choose|j: int| 0 <= j < before.families().len() && before.families()[j]
                    == x;
                before.lemma_at(j);
                self.lemma_at(j);
            }
            before.lemma_job_kept(self);
            before.lemma_create_safe(self, name@);
            assert(self.history(name@) =~= Map::<Seq<u8>, Version>::empty());
        }
        Ok(())
    }

    /// Open a database that has only the column family `default` unless its files
    /// say otherwise.
    pub fn open(storage: &Storage) -> (r: Result<LsmEngine, EngineError>)
        ensures
            match r {
                Ok(e) => openable(storage@) && opened(&e, storage@, seq!["default"@]),
                Err(x) => x == EngineError::InvalidData && !openable(storage@),
            },
    {
        let mut asked: Vec<String> = Vec::new();
        asked.push("default".to_owned());
        assert(names(asked@) =~= seq!["default"@]);
        proof {
            reveal_strlit("default");
            vstd::utf8::is_ascii_chars_encode_utf8("default"@);
        }
        Self::open_with_cfs(storage, &asked)
    }

    /// Open a database from what its files hold. Column families of `cf_names` that
    /// it lacks are created.
    pub fn open_with_cfs(storage: &Storage, cf_names: &Vec<String>) -> (r: Result<
        LsmEngine,
        EngineError,
    >)
        requires
            forall|i: int| 0 <= i < cf_names@.len() ==> name_fits((#[trigger] cf_names@[i])@),
        ensures
            match r {
                Ok(e) => openable(storage@) && opened(&e, storage@, names(cf_names@)),
                Err(x) => x == EngineError::InvalidData && !openable(storage@),
            },
    {
        let ghost d = storage@;
        let mut engine: LsmEngine = match Self::load(storage) {
            Ok(e) => e,
            Err(x) => {
                return Err(x);
            },
        };
        let ghost asked = names(cf_names@);
        let ghost have = families_in(d);
        let mut i: usize = 0;
        assert(asked.take(0) =~= Seq::<Seq<char>>::empty());
        while i < cf_names.len()
            invariant
                i <= cf_names@.len(),
                forall|j: int| 0 <= j < cf_names@.len() ==> name_fits((#[trigger] cf_names@[j])@),
                asked == names(cf_names@),
                have == families_in(d),
                opened(&engine, d, asked.take(i as int)),
            decreases cf_names@.len() - i,
        {
            let ghost before = engine;
            let ghost t = asked.take(i as int);
            let ghost u = asked.take(i + 1);
            let ghost name = cf_names@[i as int]@;
            proof {
                assert(u.drop_last() =~= t);
                assert(u.last() == name);
                assert(name_fits(name));
            }
            let _ = engine.create_cf(cf_names[i].as_str());
            proof {
                assert forall|cf: Seq<char>| have.contains(cf) implies #[trigger] engine.contents(
                    cf,
                ) == stored(d, cf) by {
                    lemma_with_names(have, t, cf);
                    assert(before.has_cf(cf));
                }
                assert forall|cf: Seq<char>|
                    u.contains(cf) && !have.contains(cf) implies #[trigger] engine.contents(cf)
                    == Map::<Seq<u8>, Version>::empty() by {
                    lemma_with_names(have, t, cf);
                    let j = choose|j: int| 0 <= j < u.len() && u[j] == cf;
                    if j < i {
                        assert(t[j] == cf);
                        assert(before.has_cf(cf));
                    } else {
                        assert(cf == name);
                        if before.has_cf(name) {
                            assert(before.contents(cf) == Map::<Seq<u8>, Version>::empty());
                        }
                    }
                }
                assert forall|cf: Seq<char>| have.contains(cf) implies loaded(
                    #[trigger] engine.family(cf),
                    d,
                    cf,
                    files_in(d, cf),
                    family_newest(d, cf),
                ) by {
                    lemma_with_names(have, t, cf);
                    assert(before.has_cf(cf));
                    assert(engine.family(cf) == before.family(cf));
                }
                assert forall|cf: Seq<char>| u.contains(cf) && !have.contains(cf) implies is_new(
                    #[trigger] engine.family(cf),
                    cf,
                ) by {
                    lemma_with_names(have, t, cf);
                    let j = choose|j: int| 0 <= j < u.len() && u[j] == cf;
                    if j < i {
                        assert(t[j] == cf);
                        assert(before.has_cf(cf));
                        assert(engine.family(cf) == before.family(cf));
                    } else {
                        assert(cf == name);
                    }
                }
                let repairs = manifest_repair(d) + log_repairs(d, have);
                assert(engine.queued() =~= repairs + creations(have, u));
            }
            i = i + 1;
        }
        assert(asked.take(i as int) =~= asked);
        Ok(engine)
    }

    /// Read the families that the manifest lists.
    fn load(storage: &Storage) -> (r: Result<LsmEngine, EngineError>)
        ensures
            match r {
                Ok(e) => openable(storage@) && opened(&e, storage@, Seq::empty()),
                Err(x) => x == EngineError::InvalidData && !openable(storage@),
            },
    {
        let ghost d = storage@;
        let data: Vec<u8> = storage.read_or_empty(&FileName::Manifest);
        let state: ManifestState = Manifest::recover(data.as_slice());
        let ghost raw = recovered_edits(data@);
        let ghost es = edits_in(d);
        proof {
            lemma_recovered_edits_fit(data@);
            law_clean_lists_each_file_once(raw);
            lemma_families(es);
            law_manifest_returns_what_was_logged(es);
        }
        let list: Vec<ManifestRecord> = if is_sound(&state, Ghost(raw)) {
            Manifest::read_records(data.as_slice())
        } else {
            relist(&state, Ghost(raw))
        };
        let mut manifest: Manifest = Manifest::open(Vec::new());
        let clean: Vec<u8> = manifest.append_all(&list);
        assert(manifest@ =~= manifest_of(es));
        let mut e: LsmEngine = LsmEngine {
            families: Vec::new(),
            manifest,
            next_file: 1,
            write_seq: 1,
            in_flight: None,
            handed_out: false,
            ops: Vec::new(),
            synced: Ghost(d),
        };
        assert(op_views(e.ops@) =~= Seq::<Op>::empty());
        if !bytes_eq(clean.as_slice(), data.as_slice()) {
            e.queue(FileOp::Write { file: FileName::Manifest, data: clean });
        }
        let ghost have = families_of(es);
        let mut newest: u64 = 0;
        let mut newest_file: u64 = 0;
        let mut i: usize = 0;
        assert(have.take(0) =~= Seq::<Seq<char>>::empty());
        assert(e.queued() =~= manifest_repair(d) + log_repairs(d, have.take(0)));
        while i < state.cfs.len()
            invariant
                i <= state.cfs@.len(),
                state.wf(),
                state.is_after(raw),
                es == edits_in(d),
                forall|x: Seq<char>|
                    have.contains(x) ==> #[trigger] files_of(es, x) == once(files_of(raw, x)),
                d == storage@,
                have == families_of(es),
                have == names(state.cfs@),
                forall|a: int, b: int|
                    0 <= a < b < have.len() ==> (#[trigger] have[a]) != (#[trigger] have[b]),
                newest == families_newest(d, have.take(i as int)),
                newest_file == files_newest(d, have.take(i as int)),
                e.synced() == d,
                e.manifest@ == manifest_of(es),
                e.in_flight is None,
                content(e.disk(), FileId::Manifest) == manifest_of(es),
                forall|x: Seq<char>, f: Seq<char>| #[trigger]
                    content(e.disk(), FileId::Table(x, f)) == content(d, FileId::Table(x, f)),
                e.families@.len() == i,
                e.queued() == manifest_repair(d) + log_repairs(d, have.take(i as int)),
                forall|j: int|
                    0 <= j < i ==> loaded(
                        #[trigger] e.families@[j],
                        d,
                        have[j],
                        files_in(d, have[j]),
                        family_newest(d, have[j]),
                    ) && content(e.disk(), FileId::Wal(have[j])) == e.families@[j].wal@,
                forall|j: int|
                    i <= j < have.len() ==> content(e.disk(), FileId::Wal(#[trigger] have[j]))
                        == content(d, FileId::Wal(have[j])),
            decreases state.cfs@.len() - i,
        {
            let ghost before = e;
            let ghost name = state.cfs@[i as int]@;
            let files: Vec<(u32, String)> = once_files(&state.files_in(&state.cfs[i]));
            proof {
                assert(have[i as int] == name);
                assert(listed(state.files@, name) == files_of(raw, name));
                assert(file_list(files@) == files_in(d, name));
                let t = have.take(i + 1);
                assert(t.drop_last() =~= have.take(i as int));
                assert(t.last() == name);
            }
            let (cf, seq, file): (CfState, u64, u64) = load_family(storage, &state.cfs[i], &files);
            let ghost fam = cf;
            if seq > newest {
                newest = seq;
            }
            if file > newest_file {
                newest_file = file;
            }
            let wal_file: FileName = FileName::Wal { cf: state.cfs[i].clone() };
            let old_log: Vec<u8> = storage.read_or_empty(&wal_file);
            if !bytes_eq(cf.wal.bytes().as_slice(), old_log.as_slice()) {
                let log: Vec<u8> = copy_bytes(cf.wal.bytes().as_slice());
                e.queue(FileOp::Write { file: wal_file, data: log });
            }
            e.families.push(cf);
            proof {
                assert(e.families@ =~= before.families@.push(fam));
                assert(e.queued() =~= manifest_repair(d) + log_repairs(d, have.take(i + 1)));
                assert forall|x: Seq<char>, f: Seq<char>| #[trigger]
                    content(e.disk(), FileId::Table(x, f)) == content(d, FileId::Table(x, f)) by {
                    assert(content(before.disk(), FileId::Table(x, f)) == content(
                        d,
                        FileId::Table(x, f),
                    ));
                }
                assert forall|j: int| 0 <= j < i + 1 implies loaded(
                    #[trigger] e.families@[j],
                    d,
                    have[j],
                    files_in(d, have[j]),
                    family_newest(d, have[j]),
                ) && content(e.disk(), FileId::Wal(have[j])) == e.families@[j].wal@ by {
                    if j < i {
                        assert(e.families@[j] == before.families@[j]);
                        assert(have[j] != have[i as int]);
                    }
                }
                assert forall|j: int| i + 1 <= j < have.len() implies content(
                    e.disk(),
                    FileId::Wal(#[trigger] have[j]),
                ) == content(d, FileId::Wal(have[j])) by {
                    assert(have[j] != have[i as int]);
                }
            }
            i = i + 1;
        }
        assert(have.take(i as int) =~= have);
        if newest == u64::MAX || newest_file == u64::MAX {
            return Err(EngineError::InvalidData);
        }
        e.write_seq = newest + 1;
        e.next_file = newest_file + 1;
        proof {
            e.lemma_loaded(d, es);
        }
        Ok(e)
    }

    /// What was read from the files is in step with them.
    proof fn lemma_loaded(&self, d: Disk, es: Seq<Edit>)
        requires
            es == edits_in(d),
            sound_edits(es),
            edits_fit(es),
            self.synced() == d,
            self.in_flight is None,
            self.manifest@ == manifest_of(es),
            content(self.disk(), FileId::Manifest) == manifest_of(es),
            forall|x: Seq<char>, f: Seq<char>| #[trigger]
                content(self.disk(), FileId::Table(x, f)) == content(d, FileId::Table(x, f)),
            self.families@.len() == families_of(es).len(),
            forall|j: int|
                0 <= j < self.families@.len() ==> loaded(
                    #[trigger] self.families@[j],
                    d,
                    families_of(es)[j],
                    files_in(d, families_of(es)[j]),
                    family_newest(d, families_of(es)[j]),
                ) && content(self.disk(), FileId::Wal(families_of(es)[j]))
                    == self.families@[j].wal@,
            self.write_seq == families_newest(d, families_of(es)) + 1,
            self.next_file == files_newest(d, families_of(es)) + 1,
            self.queued() == manifest_repair(d) + log_repairs(d, families_of(es)),
        ensures
            opened(self, d, Seq::empty()),
    {
        let have = families_of(es);
        law_manifest_returns_what_was_logged(es);
        lemma_families(es);
        assert(family_names(self.families@) =~= have) by {
            assert forall|j: int| 0 <= j < have.len() implies family_names(self.families@)[j]
                == have[j] by {
                let cf = self.families@[j];
            }
        }
        assert forall|a: int, b: int| 0 <= a < b < self.families@.len() implies (
        #[trigger] self.families@[a]).name@ != (#[trigger] self.families@[b]).name@ by {
            assert(have[a] != have[b]);
        }
        assert forall|j: int| 0 <= j < self.families@.len() implies family_ok(
            #[trigger] self.families@[j],
            self.disk(),
            files_of(es, self.families@[j].name@),
            self.write_seq,
            self.next_file,
        ) by {
            let cf = self.families@[j];
            let name = have[j];
            let files = files_in(d, name);
            let rs = recovered(content(d, FileId::Wal(name)));
            lemma_recovered_fits(content(d, FileId::Wal(name)));
            law_recovery_returns_what_was_logged(rs);
            lemma_newest_member(d, have, j);
            let ws1 = (self.write_seq - 1) as u64;
            assert(family_newest(d, name) <= ws1);
            assert forall|i: int| 0 <= i < rs.len() implies (#[trigger] rs[i]).seq()
                < self.write_seq by {
                lemma_records_bound(rs, i);
            }
            lemma_replay_written(cf.tables(), rs, ws1);
            assert forall|l: int, i: int|
                0 <= l < cf.levels@.len() && 0 <= i < cf.levels@[l]@.len() implies (
            #[trigger] cf.levels@[l]@[i]).newest() <= ws1 by {
                assert(cf.levels@[l]@[i].newest() <= family_newest(d, name));
            }
            lemma_names_bound(files, self.next_file);
            assert forall|l: int| 0 <= l < MAX_LEVELS implies level_files(
                (#[trigger] cf.levels@[l])@,
            ) == valid_tables(self.disk(), name, files, l) by {
                lemma_valid_frame(d, self.disk(), name, files, l);
            }
            assert(name_fits(have[j]));
            assert(distinct(files_of(es, name)));
        }
        assert(self.wf());
        assert(self.queued() =~= manifest_repair(d) + log_repairs(d, have) + creations(
            have,
            Seq::empty(),
        ));
        assert forall|cf: Seq<char>| families_in(d).contains(cf) implies loaded(
            #[trigger] self.family(cf),
            d,
            cf,
            files_in(d, cf),
            family_newest(d, cf),
        ) by {
            let j = choose|j: int| 0 <= j < have.len() && have[j] == cf;
            self.lemma_at(j);
        }
        assert forall|cf: Seq<char>| families_in(d).contains(cf) implies #[trigger] self.contents(
            cf,
        ) == stored(d, cf) by {
            let j = choose|j: int| 0 <= j < have.len() && have[j] == cf;
            self.lemma_at(j);
            let fam = self.families@[j];
            lemma_stored_tables(fam.levels@, d, cf, files_in(d, cf), 0);
            lemma_contents(&fam);
        }
    }
}

/// The largest number of all families bounds that of each.
pub proof fn lemma_newest_member(d: Disk, list: Seq<Seq<char>>, j: int)
    requires
        0 <= j < list.len(),
    ensures
        family_newest(d, list[j]) <= families_newest(d, list),
        names_newest(files_in(d, list[j])) <= files_newest(d, list),
    decreases list.len(),
{
    if j < list.len() - 1 {
        lemma_newest_member(d, list.drop_last(), j);
    }
}

/// The operations that create a column family: its directory and its empty log are
/// made, and then the edit is logged.
pub open spec fn create_ops(name: Seq<char>) -> Seq<Op> {
    seq![
        Op::CreateDir(name),
        Op::Write(FileId::Wal(name), Seq::empty()),
        Op::Append(
            FileId::Manifest,
            edit_frame(Edit::CreateCF { name }),
        ),
    ]
}

} // verus!
