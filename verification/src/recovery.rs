//! How the state in memory follows from the files of a database.

use crate::family::{lemma_contents, level_layer, levels_layer, levels_written_by, table_layers,
    written_by, CfState, MAX_LEVELS};
use crate::layers::{in_range, lemma_hide_assoc, Layer};
use crate::manifest::{edit_fits, edit_frame, edits_fit, families_of, files_of, files_step,
    law_manifest_returns_what_was_logged, lemma_manifest_push, manifest_of, name_fits,
    recovered_edits, without, Edit};
use crate::memtable::Version;
use crate::replay::{apply_record, lemma_replay_push, replay, tombstone};
use crate::sstable::SSTable;
use crate::storage::{apply_op, content, Disk, FileId, Op};
use crate::stored::lemma_entries_by;
use crate::table_format::{max_seq_of, table_entries};
use crate::text::{law_table_name_keeps_seq, lemma_table_name_ascii, seq_in_name, table_name};
use crate::wal::{all_fit, fits, frame, law_recovery_returns_what_was_logged, lemma_log_push, log_of,
    recovered, Record};
use vstd::prelude::*;
use vstd::utf8::is_ascii_chars_encode_utf8;

verus! {

/// A list of table files with their levels.
pub type FileList = Seq<(u32, Seq<char>)>;

/// The files of level `l` of a list that are table files, with their contents.
pub open spec fn valid_tables(
    d: Disk,
    cf: Seq<char>,
    files: FileList,
    l: int,
) -> Seq<(Seq<char>, Seq<u8>)>
    decreases files.len(),
{
    if files.len() == 0 {
        Seq::empty()
    } else {
        let before = valid_tables(d, cf, files.drop_last(), l);
        let data = content(d, FileId::Table(cf, files.last().1));
        if files.last().0 == l && table_entries(data) is Some {
            before.push((files.last().1, data))
        } else {
            before
        }
    }
}

/// The name `name` stands in a list.
pub open spec fn lists(files: FileList, name: Seq<char>) -> bool {
    exists|i: int| 0 <= i < files.len() && (#[trigger] files[i]).1 == name
}

/// No name stands twice in a list.
pub open spec fn distinct(files: FileList) -> bool {
    forall|i: int, j: int|
        0 <= i < j < files.len() ==> (#[trigger] files[i]).1 != (#[trigger] files[j]).1
}

/// The sequence numbers in the names of a list are below `next_file`.
pub open spec fn numbered_below(files: FileList, next_file: u64) -> bool {
    forall|i: int|
        0 <= i < files.len() ==> (seq_in_name((#[trigger] files[i]).1) matches Some(s)
            ==> s < next_file)
}

/// The manifest lists no file twice, and none of a family that was not created.
pub open spec fn sound_edits(es: Seq<Edit>) -> bool {
    &&& forall|cf: Seq<char>| distinct(#[trigger] files_of(es, cf))
    &&& forall|cf: Seq<char>|
        !families_of(es).contains(cf) ==> (#[trigger] files_of(es, cf)).len() == 0
}

/// Records with sequence numbers below `write_seq`.
pub open spec fn seqs_below(rs: Seq<Record>, write_seq: u64) -> bool {
    forall|i: int| 0 <= i < rs.len() ==> (#[trigger] rs[i]).seq() < write_seq
}

/// The names and contents of the tables of a level.
pub open spec fn level_files(files: Seq<SSTable>) -> Seq<(Seq<char>, Seq<u8>)> {
    files.map_values(|t: SSTable| (t.name(), t.bytes()))
}

/// The state of a family in memory is what its files say: its tables are those
/// that the manifest lists, and its memtable is what its log makes on top of them.
pub open spec fn family_ok(
    cf: CfState,
    d: Disk,
    files: FileList,
    write_seq: u64,
    next_file: u64,
) -> bool {
    let rs = recovered(cf.wal@);
    &&& cf.wf()
    &&& name_fits(cf.name@)
    &&& content(d, FileId::Wal(cf.name@)) == cf.wal@
    &&& cf.wal@ == log_of(rs)
    &&& all_fit(rs)
    &&& seqs_below(rs, write_seq)
    &&& cf.mem@ == replay(cf.tables(), rs)
    &&& forall|l: int|
        0 <= l < MAX_LEVELS ==> level_files((#[trigger] cf.levels@[l])@) == valid_tables(
            d,
            cf.name@,
            files,
            l,
        )
    &&& distinct(files)
    &&& numbered_below(files, next_file)
    &&& write_seq >= 1
    &&& written_by(cf.mem@, (write_seq - 1) as u64)
    &&& levels_written_by(cf.levels@, (write_seq - 1) as u64)
    &&& written_by(cf.buried@, (write_seq - 1) as u64)
}

/// The names of families.
pub open spec fn family_names(fams: Seq<CfState>) -> Seq<Seq<char>> {
    fams.map_values(|cf: CfState| cf.name@)
}

/// The manifest in memory is the one on disk, and lists the families.
pub open spec fn manifest_ok(log: Seq<u8>, d: Disk, fams: Seq<CfState>) -> bool {
    let es = recovered_edits(log);
    &&& log == manifest_of(es)
    &&& edits_fit(es)
    &&& sound_edits(es)
    &&& content(d, FileId::Manifest) == log
    &&& family_names(fams) == families_of(es)
}

/// No family stands twice.
pub open spec fn families_distinct(fams: Seq<CfState>) -> bool {
    forall|i: int, j: int|
        0 <= i < j < fams.len() ==> (#[trigger] fams[i]).name@ != (#[trigger] fams[j]).name@
}

/// The state in memory is what the files say.
pub open spec fn state_ok(
    fams: Seq<CfState>,
    log: Seq<u8>,
    d: Disk,
    write_seq: u64,
    next_file: u64,
) -> bool {
    &&& manifest_ok(log, d, fams)
    &&& families_distinct(fams)
    &&& forall|i: int|
        0 <= i < fams.len() ==> family_ok(
            #[trigger] fams[i],
            d,
            files_of(recovered_edits(log), fams[i].name@),
            write_seq,
            next_file,
        )
}

/// What was last written to each key after one more record.
pub open spec fn written(c: Layer, r: Record) -> Layer {
    match r {
        Record::Put { key, seq, value } => c.insert(
            key,
            Version { seq, expires_at: 0, value: Some(value) },
        ),
        Record::PutTtl { key, seq, value, expires_at } => c.insert(
            key,
            Version { seq, expires_at, value: Some(value) },
        ),
        Record::Delete { key, seq } => c.insert(key, tombstone(seq)),
        Record::DeleteRange { from, to, seq } => Map::new(
            |k: Seq<u8>| c.contains_key(k),
            |k: Seq<u8>|
                if in_range(k, from, to) && c[k].value is Some {
                    tombstone(seq)
                } else {
                    c[k]
                },
        ),
    }
}

/// A record applied to the memtable changes what lies under it and the memtable
/// together in the same way.
pub proof fn lemma_written(base: Layer, m: Layer, r: Record)
    ensures
        base.union_prefer_right(apply_record(m, base, r)) == written(
            base.union_prefer_right(m),
            r,
        ),
{
    assert(base.union_prefer_right(apply_record(m, base, r)) =~= written(
        base.union_prefer_right(m),
        r,
    ));
}

// ---- frames --------------------------------------------------------------------

/// The tables of a list depend on no other files.
pub proof fn lemma_valid_frame(d: Disk, e: Disk, cf: Seq<char>, files: FileList, l: int)
    requires
        forall|i: int|
            0 <= i < files.len() ==> content(d, FileId::Table(cf, (#[trigger] files[i]).1))
                == content(e, FileId::Table(cf, files[i].1)),
    ensures
        valid_tables(d, cf, files, l) == valid_tables(e, cf, files, l),
    decreases files.len(),
{
    if files.len() > 0 {
        let less = files.drop_last();
        assert forall|i: int| 0 <= i < less.len() implies content(
            d,
            FileId::Table(cf, (#[trigger] less[i]).1),
        ) == content(e, FileId::Table(cf, less[i].1)) by {
            assert(less[i] == files[i]);
        }
        lemma_valid_frame(d, e, cf, less, l);
        let last = files[files.len() - 1];
    }
}

/// A family's state stays right when only other files change, or when the
/// numbers that are still free move up.
pub proof fn lemma_family_frame(
    cf: CfState,
    d: Disk,
    e: Disk,
    files: FileList,
    write_seq: u64,
    next_file: u64,
    write_seq2: u64,
    next_file2: u64,
)
    requires
        family_ok(cf, d, files, write_seq, next_file),
        write_seq <= write_seq2,
        next_file <= next_file2,
        content(e, FileId::Wal(cf.name@)) == content(d, FileId::Wal(cf.name@)),
        forall|i: int|
            0 <= i < files.len() ==> content(d, FileId::Table(cf.name@, (#[trigger] files[i]).1))
                == content(e, FileId::Table(cf.name@, files[i].1)),
    ensures
        family_ok(cf, e, files, write_seq2, next_file2),
{
    assert forall|l: int| 0 <= l < MAX_LEVELS implies level_files((#[trigger] cf.levels@[l])@)
        == valid_tables(e, cf.name@, files, l) by {
        lemma_valid_frame(d, e, cf.name@, files, l);
    }
    assert forall|l: int, i: int|
        0 <= l < cf.levels@.len() && 0 <= i < cf.levels@[l]@.len() implies (
    #[trigger] cf.levels@[l]@[i]).newest() <= (write_seq2 - 1) as u64 by {
        assert(cf.levels@[l]@[i].newest() <= (write_seq - 1) as u64);
    }
}

/// The files of a family after edits that concern others.
pub proof fn lemma_files_push(es: Seq<Edit>, e: Edit, cf: Seq<char>)
    ensures
        files_of(es.push(e), cf) == files_step(files_of(es, cf), e, cf),
        families_of(es.push(e)) == (match e {
            Edit::CreateCF { name } => if families_of(es).contains(name) {
                families_of(es)
            } else {
                families_of(es).push(name)
            },
            _ => families_of(es),
        }),
{
    assert(es.push(e).drop_last() =~= es);
}

/// What is listed was not taken out.
pub proof fn lemma_without_lists(files: FileList, name: Seq<char>, other: Seq<char>)
    ensures
        lists(without(files, name), other) <==> lists(files, other) && other != name,
    decreases files.len(),
{
    if files.len() > 0 {
        let less = files.drop_last();
        lemma_without_lists(less, name, other);
        let w = without(less, name);
        let all = without(files, name);
        if lists(all, other) {
            let i = choose|i: int| 0 <= i < all.len() && (#[trigger] all[i]).1 == other;
            if i < w.len() {
                assert(all[i] == w[i]);
                assert(lists(w, other));
                let j = choose|j: int| 0 <= j < less.len() && (#[trigger] less[j]).1 == other;
                assert(files[j] == less[j]);
            } else {
                assert(files[files.len() - 1].1 == other);
            }
        }
        if lists(files, other) && other != name {
            let j = choose|j: int| 0 <= j < files.len() && (#[trigger] files[j]).1 == other;
            if j < less.len() {
                assert(less[j] == files[j]);
                assert(lists(w, other));
                let i = choose|i: int| 0 <= i < w.len() && (#[trigger] w[i]).1 == other;
                assert(all[i] == w[i]);
            } else {
                assert(all[all.len() - 1].1 == other);
            }
        }
    }
}

/// Taking a name out keeps a list free of repetitions.
pub proof fn lemma_without_distinct(files: FileList, name: Seq<char>)
    requires
        distinct(files),
    ensures
        distinct(without(files, name)),
    decreases files.len(),
{
    if files.len() > 0 {
        let less = files.drop_last();
        assert forall|i: int, j: int| 0 <= i < j < less.len() implies (#[trigger] less[i]).1 != (
        #[trigger] less[j]).1 by {
            assert(less[i] == files[i] && less[j] == files[j]);
        }
        lemma_without_distinct(less, name);
        let w = without(less, name);
        let all = without(files, name);
        assert forall|i: int, j: int| 0 <= i < j < all.len() implies (#[trigger] all[i]).1 != (
        #[trigger] all[j]).1 by {
            assert(all[i] == w[i]);
            if j < w.len() {
                assert(all[j] == w[j]);
            } else {
                assert(w[i].1 == w[i].1);
                assert(lists(w, w[i].1));
                lemma_without_lists(less, name, w[i].1);
                let a = choose|a: int| 0 <= a < less.len() && (#[trigger] less[a]).1 == w[i].1;
                assert(files[a] == less[a]);
                assert(files[a].1 != files[files.len() - 1].1);
            }
        }
    }
}

/// What is true of every listed name is true of those that are left.
pub proof fn lemma_without_numbered(files: FileList, name: Seq<char>, next_file: u64)
    requires
        numbered_below(files, next_file),
    ensures
        numbered_below(without(files, name), next_file),
{
    let w = without(files, name);
    assert forall|i: int| 0 <= i < w.len() implies (seq_in_name((#[trigger] w[i]).1) matches Some(s)
        ==> s < next_file) by {
        assert(lists(w, w[i].1));
        lemma_without_lists(files, name, w[i].1);
        let a = choose|a: int| 0 <= a < files.len() && (#[trigger] files[a]).1 == w[i].1;
        assert(files[a].1 == w[i].1);
    }
}

// ---- steps ---------------------------------------------------------------------

proof fn lemma_seq_of_record(m: Layer, base: Layer, r: Record, max_seq: u64)
    requires
        written_by(m, max_seq),
        r.seq() <= max_seq,
    ensures
        written_by(apply_record(m, base, r), max_seq),
{
}

/// Logging a record and applying it to the memtable keeps memory and files in step.
pub proof fn lemma_log_step(
    fams: Seq<CfState>,
    after: Seq<CfState>,
    log: Seq<u8>,
    d: Disk,
    write_seq: u64,
    next_file: u64,
    i: int,
    r: Record,
)
    requires
        state_ok(fams, log, d, write_seq, next_file),
        0 <= i < fams.len(),
        fits(r),
        r.seq() < write_seq,
        after.len() == fams.len(),
        forall|j: int| 0 <= j < fams.len() && j != i ==> (#[trigger] after[j]) == fams[j],
        after[i].wf(),
        after[i].name@ == fams[i].name@,
        after[i].levels == fams[i].levels,
        after[i].buried == fams[i].buried,
        after[i].wal@ == fams[i].wal@ + frame(r),
        after[i].mem@ == apply_record(fams[i].mem@, fams[i].tables(), r),
    ensures
        state_ok(
            after,
            log,
            apply_op(d, Op::Append(FileId::Wal(fams[i].name@), frame(r))),
            write_seq,
            next_file,
        ),
{
    let name = fams[i].name@;
    let e = apply_op(d, Op::Append(FileId::Wal(name), frame(r)));
    let es = recovered_edits(log);
    let files = files_of(es, name);
    let rs = recovered(fams[i].wal@);
    assert(family_ok(fams[i], d, files, write_seq, next_file));
    lemma_log_push(rs, r);
    let more = rs.push(r);
    assert(after[i].wal@ == log_of(more));
    assert forall|k: int| 0 <= k < more.len() implies fits(#[trigger] more[k]) by {
        if k < rs.len() {
            assert(more[k] == rs[k]);
        }
    }
    law_recovery_returns_what_was_logged(more);
    lemma_replay_push(fams[i].tables(), rs, r);
    lemma_seq_of_record(fams[i].mem@, fams[i].tables(), r, (write_seq - 1) as u64);
    assert(family_ok(after[i], e, files, write_seq, next_file)) by {
        assert forall|l: int| 0 <= l < MAX_LEVELS implies level_files(
            (#[trigger] after[i].levels@[l])@,
        ) == valid_tables(e, name, files, l) by {
            assert(level_files(fams[i].levels@[l]@) == valid_tables(d, name, files, l));
            lemma_valid_frame(d, e, name, files, l);
        }
    }
    assert forall|j: int| 0 <= j < after.len() implies family_ok(
        #[trigger] after[j],
        e,
        files_of(es, after[j].name@),
        write_seq,
        next_file,
    ) by {
        if j != i {
            assert(fams[j].name@ != name);
            lemma_family_frame(
                fams[j],
                d,
                e,
                files_of(es, fams[j].name@),
                write_seq,
                next_file,
                write_seq,
                next_file,
            );
        }
    }
    assert(family_names(after) =~= family_names(fams));
    assert forall|a: int, b: int| 0 <= a < b < after.len() implies (#[trigger] after[a]).name@ != (
    #[trigger] after[b]).name@ by {
        assert(fams[a].name@ != fams[b].name@);
    }
}

/// A list with one more name, which is new.
proof fn lemma_list_push(files: FileList, f: (u32, Seq<char>), next_file: u64)
    requires
        distinct(files),
        numbered_below(files, next_file),
        seq_in_name(f.1) == Some(next_file),
        next_file < u64::MAX,
    ensures
        distinct(files.push(f)),
        numbered_below(files.push(f), (next_file + 1) as u64),
        !lists(files, f.1),
{
    let more = files.push(f);
    assert forall|i: int, j: int| 0 <= i < j < more.len() implies (#[trigger] more[i]).1 != (
    #[trigger] more[j]).1 by {
        assert(more[i] == files[i]);
        if j < files.len() {
            assert(more[j] == files[j]);
        }
    }
    assert forall|i: int| 0 <= i < more.len() implies (seq_in_name((
    #[trigger] more[i]).1) matches Some(s) ==> s < next_file + 1) by {
        if i < files.len() {
            assert(more[i] == files[i]);
        }
    }
}

/// What a level shows with one more table.
pub proof fn lemma_level_push(files: Seq<SSTable>, t: SSTable)
    ensures
        level_layer(files.push(t)) == level_layer(files).union_prefer_right(t@),
{
    assert(table_layers(files.push(t)).drop_last() =~= table_layers(files));
}

/// What the levels from `l` on show depends on no others.
pub proof fn lemma_levels_frame(a: Seq<Vec<SSTable>>, b: Seq<Vec<SSTable>>, l: int)
    requires
        a.len() == b.len(),
        0 <= l <= a.len(),
        forall|i: int| l <= i < a.len() ==> (#[trigger] a[i])@ == b[i]@,
    ensures
        levels_layer(a, l) == levels_layer(b, l),
    decreases a.len() - l,
{
    if l < a.len() {
        lemma_levels_frame(a, b, l + 1);
    }
}

/// Flushing a memtable keeps memory and files in step.
pub proof fn lemma_flush_step(
    fams: Seq<CfState>,
    after: Seq<CfState>,
    log: Seq<u8>,
    d: Disk,
    write_seq: u64,
    next_file: u64,
    i: int,
    t: SSTable,
)
    requires
        state_ok(fams, log, d, write_seq, next_file),
        next_file < u64::MAX,
        0 <= i < fams.len(),
        t.wf(),
        t@ == fams[i].mem@,
        t.newest() == max_seq_of(t.entries()),
        t.name() == table_name(0, next_file as nat),
        after.len() == fams.len(),
        forall|j: int| 0 <= j < fams.len() && j != i ==> (#[trigger] after[j]) == fams[j],
        after[i].wf(),
        after[i].name@ == fams[i].name@,
        after[i].levels@.len() == fams[i].levels@.len(),
        forall|l: int|
            1 <= l < MAX_LEVELS ==> (#[trigger] after[i].levels@[l])@ == fams[i].levels@[l]@,
        after[i].levels@[0]@ == fams[i].levels@[0]@.push(t),
        after[i].buried == fams[i].buried,
        after[i].wal@ == Seq::<u8>::empty(),
        after[i].mem@ == Map::<Seq<u8>, Version>::empty(),
    ensures
        ({
            let name = fams[i].name@;
            let edit = Edit::AddFile { cf: name, level: 0, filename: t.name() };
            let d1 = apply_op(d, Op::Write(FileId::Table(name, t.name()), t.bytes()));
            let d2 = apply_op(d1, Op::Append(FileId::Manifest, edit_frame(edit)));
            let d3 = apply_op(d2, Op::Write(FileId::Wal(name), Seq::empty()));
            &&& state_ok(
                after,
                log + edit_frame(edit),
                d3,
                write_seq,
                (next_file + 1) as u64,
            )
            &&& recovered_edits(log + edit_frame(edit)) == recovered_edits(log).push(edit)
        }),
        after[i].contents() == fams[i].contents(),
{
    let name = fams[i].name@;
    let edit = Edit::AddFile { cf: name, level: 0, filename: t.name() };
    let d1 = apply_op(d, Op::Write(FileId::Table(name, t.name()), t.bytes()));
    let d2 = apply_op(d1, Op::Append(FileId::Manifest, edit_frame(edit)));
    let d3 = apply_op(d2, Op::Write(FileId::Wal(name), Seq::empty()));
    let es = recovered_edits(log);
    let files = files_of(es, name);
    let more = es.push(edit);
    assert(family_ok(fams[i], d, files, write_seq, next_file));
    law_table_name_keeps_seq(0, next_file);
    lemma_table_name_fits(0, next_file);
    lemma_edits_push(es, edit, log);
    lemma_list_push(files, (0u32, t.name()), next_file);
    lemma_files_push(es, edit, name);
    let files2 = files_of(more, name);
    assert(files2 == files.push((0u32, t.name())));
    t.lemma_wf();
    // tables
    assert forall|l: int| 0 <= l < MAX_LEVELS implies level_files(
        (#[trigger] after[i].levels@[l])@,
    ) == valid_tables(d3, name, files2, l) by {
        assert(files2.drop_last() =~= files);
        assert forall|a: int| 0 <= a < files.len() implies content(
            d,
            FileId::Table(name, (#[trigger] files[a]).1),
        ) == content(d3, FileId::Table(name, files[a].1)) by {
            assert(files[a].1 != t.name());
        }
        lemma_valid_frame(d, d3, name, files, l);
        assert(level_files(fams[i].levels@[l]@) == valid_tables(d, name, files, l));
        assert(content(d3, FileId::Table(name, t.name())) == t.bytes());
        if l == 0 {
            assert(level_files(after[i].levels@[0]@) =~= level_files(fams[i].levels@[0]@).push(
                (t.name(), t.bytes()),
            ));
        }
    }
    // what is shown
    lemma_contents(&fams[i]);
    lemma_contents(&after[i]);
    lemma_levels_frame(fams[i].levels@, after[i].levels@, 1);
    lemma_level_push(fams[i].levels@[0]@, t);
    lemma_hide_assoc(
        levels_layer(fams[i].levels@, 1),
        level_layer(fams[i].levels@[0]@),
        fams[i].mem@,
    );
    assert(after[i].tables() == fams[i].tables().union_prefer_right(fams[i].mem@));
    assert(after[i].contents() =~= fams[i].contents());
    // log
    law_recovery_returns_what_was_logged(Seq::<Record>::empty());
    assert(recovered(after[i].wal@) == Seq::<Record>::empty());
    // sequence numbers
    assert forall|l: int, k: int|
        0 <= l < after[i].levels@.len() && 0 <= k < after[i].levels@[l]@.len() implies (
    #[trigger] after[i].levels@[l]@[k]).newest() <= (write_seq - 1) as u64 by {
        if l == 0 {
            if k < fams[i].levels@[0]@.len() {
                assert(after[i].levels@[0]@[k] == fams[i].levels@[0]@[k]);
                assert(fams[i].levels@[0]@[k].newest() <= (write_seq - 1) as u64);
            } else {
                lemma_entries_by(t.entries(), (write_seq - 1) as u64);
            }
        } else {
            assert(after[i].levels@[l]@[k] == fams[i].levels@[l]@[k]);
            assert(fams[i].levels@[l]@[k].newest() <= (write_seq - 1) as u64);
        }
    }
    assert(family_ok(after[i], d3, files2, write_seq, (next_file + 1) as u64));
    assert forall|j: int| 0 <= j < after.len() implies family_ok(
        #[trigger] after[j],
        d3,
        files_of(more, after[j].name@),
        write_seq,
        (next_file + 1) as u64,
    ) by {
        if j != i {
            assert(fams[j].name@ != name);
            lemma_files_push(es, edit, fams[j].name@);
            lemma_family_frame(
                fams[j],
                d,
                d3,
                files_of(es, fams[j].name@),
                write_seq,
                next_file,
                write_seq,
                (next_file + 1) as u64,
            );
        }
    }
    assert(family_names(after) =~= family_names(fams));
    assert forall|a: int, b: int| 0 <= a < b < after.len() implies (#[trigger] after[a]).name@ != (
    #[trigger] after[b]).name@ by {
        assert(fams[a].name@ != fams[b].name@);
    }
    // manifest
    assert(sound_edits(more)) by {
        lemma_files_push(es, edit, name);
        assert forall|cf: Seq<char>| distinct(#[trigger] files_of(more, cf)) by {
            lemma_files_push(es, edit, cf);
            assert(distinct(files_of(es, cf)));
        }
        assert forall|cf: Seq<char>| !families_of(more).contains(cf) implies (
        #[trigger] files_of(more, cf)).len() == 0 by {
            lemma_files_push(es, edit, cf);
            assert(family_names(fams)[i] == name);
            assert(files_of(es, cf).len() == 0);
        }
    }
    assert(content(d3, FileId::Manifest) == log + edit_frame(edit));
}

/// Creating a family keeps memory and files in step.
pub proof fn lemma_create_step(
    fams: Seq<CfState>,
    cf: CfState,
    log: Seq<u8>,
    d: Disk,
    write_seq: u64,
    next_file: u64,
)
    requires
        state_ok(fams, log, d, write_seq, next_file),
        write_seq >= 1,
        !family_names(fams).contains(cf.name@),
        name_fits(cf.name@),
        cf.wf(),
        cf.wal@ == Seq::<u8>::empty(),
        cf.mem@ == Map::<Seq<u8>, Version>::empty(),
        cf.buried@ == Map::<Seq<u8>, Version>::empty(),
        forall|l: int| 0 <= l < MAX_LEVELS ==> (#[trigger] cf.levels@[l])@.len() == 0,
    ensures
        ({
            let edit = Edit::CreateCF { name: cf.name@ };
            let d1 = apply_op(d, Op::Write(FileId::Wal(cf.name@), Seq::empty()));
            let d2 = apply_op(d1, Op::Append(FileId::Manifest, edit_frame(edit)));
            &&& state_ok(fams.push(cf), log + edit_frame(edit), d2, write_seq, next_file)
            &&& recovered_edits(log + edit_frame(edit)) == recovered_edits(log).push(edit)
        }),
        cf.contents() == Map::<Seq<u8>, Version>::empty(),
{
    let name = cf.name@;
    let edit = Edit::CreateCF { name };
    let d1 = apply_op(d, Op::Write(FileId::Wal(name), Seq::empty()));
    let d2 = apply_op(d1, Op::Append(FileId::Manifest, edit_frame(edit)));
    let es = recovered_edits(log);
    let more = es.push(edit);
    let after = fams.push(cf);
    lemma_edits_push(es, edit, log);
    assert(families_of(es) == family_names(fams));
    assert(files_of(es, name).len() == 0);
    lemma_files_push(es, edit, name);
    law_recovery_returns_what_was_logged(Seq::<Record>::empty());
    assert(files_of(more, name) =~= Seq::<(u32, Seq<char>)>::empty());
    lemma_contents(&cf);
    lemma_no_tables(cf.levels@, 0);
    assert(cf.contents() =~= Map::<Seq<u8>, Version>::empty());
    assert(family_ok(cf, d2, files_of(more, name), write_seq, next_file)) by {
        assert forall|l: int| 0 <= l < MAX_LEVELS implies level_files((#[trigger] cf.levels@[l])@)
            == valid_tables(d2, name, files_of(more, name), l) by {
            assert(level_files(cf.levels@[l]@) =~= Seq::<(Seq<char>, Seq<u8>)>::empty());
        }
    }
    assert forall|j: int| 0 <= j < after.len() implies family_ok(
        #[trigger] after[j],
        d2,
        files_of(more, after[j].name@),
        write_seq,
        next_file,
    ) by {
        if j < fams.len() {
            assert(after[j] == fams[j]);
            assert(family_names(fams)[j] == fams[j].name@);
            lemma_files_push(es, edit, fams[j].name@);
            lemma_family_frame(
                fams[j],
                d,
                d2,
                files_of(es, fams[j].name@),
                write_seq,
                next_file,
                write_seq,
                next_file,
            );
        }
    }
    assert(family_names(after) =~= family_names(fams).push(name));
    assert forall|a: int, b: int| 0 <= a < b < after.len() implies (#[trigger] after[a]).name@ != (
    #[trigger] after[b]).name@ by {
        assert(after[a] == fams[a]);
        if b < fams.len() {
            assert(after[b] == fams[b]);
        } else {
            assert(family_names(fams)[a] == fams[a].name@);
        }
    }
    assert(sound_edits(more)) by {
        assert forall|x: Seq<char>| distinct(#[trigger] files_of(more, x)) by {
            lemma_files_push(es, edit, x);
            assert(distinct(files_of(es, x)));
        }
        assert forall|x: Seq<char>| !families_of(more).contains(x) implies (
        #[trigger] files_of(more, x)).len() == 0 by {
            lemma_files_push(es, edit, x);
            if families_of(es).contains(x) {
                let i = choose|i: int| 0 <= i < families_of(es).len() && families_of(es)[i] == x;
                assert(families_of(more)[i] == x);
            }
            assert(files_of(es, x).len() == 0);
        }
    }
    assert(content(d2, FileId::Manifest) == log + edit_frame(edit));
}

proof fn lemma_no_tables(levels: Seq<Vec<SSTable>>, l: int)
    requires
        0 <= l <= levels.len(),
        forall|i: int| 0 <= i < levels.len() ==> (#[trigger] levels[i])@.len() == 0,
    ensures
        levels_layer(levels, l) == Map::<Seq<u8>, Version>::empty(),
    decreases levels.len() - l,
{
    if l < levels.len() {
        lemma_no_tables(levels, l + 1);
        assert(table_layers(levels[l]@) =~= Seq::<Layer>::empty());
        assert(levels_layer(levels, l) =~= Map::<Seq<u8>, Version>::empty());
    }
}

/// One more record that fits keeps the manifest readable.
pub proof fn lemma_edits_push(es: Seq<Edit>, e: Edit, log: Seq<u8>)
    requires
        log == manifest_of(es),
        edits_fit(es),
        edit_fits(e),
    ensures
        log + edit_frame(e) == manifest_of(es.push(e)),
        edits_fit(es.push(e)),
        recovered_edits(log + edit_frame(e)) == es.push(e),
{
    lemma_manifest_push(es, e);
    let more = es.push(e);
    assert forall|i: int| 0 <= i < more.len() implies edit_fits(#[trigger] more[i]) by {
        if i < es.len() {
            assert(more[i] == es[i]);
        }
    }
    law_manifest_returns_what_was_logged(more);
}

/// The name of a table file is short.
pub proof fn lemma_table_name_fits(level: nat, seq: u64)
    requires
        level <= u64::MAX,
    ensures
        name_fits(table_name(level, seq as nat)),
{
    lemma_table_name_ascii(level, seq as nat);
    let n = table_name(level, seq as nat);
    is_ascii_chars_encode_utf8(n);
}

} // verus!
