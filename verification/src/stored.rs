//! What the files of a database hold, by themselves.

use crate::compact_step::lemma_table_is_file;
use crate::compaction::file_layer;
use crate::family::{lemma_contents, levels_layer, levels_written_by, table_layers, written_by,
    CfState, MAX_LEVELS};
use crate::layers::{stack, Layer};
use crate::listing::clean;
use crate::manifest::{edit_fits, edits_fit, families_of, files_of, name_fits, recovered_edits,
    Edit};
use crate::recovery::{family_ok, lemma_valid_frame, lemma_written, level_files, numbered_below,
    seqs_below, valid_tables, written, FileList};
use crate::replay::{apply_record, replay};
use crate::sorted_map::{assoc, keys_ascend, lemma_assoc_index};
use crate::sstable::SSTable;
use crate::storage::{content, Disk, FileId};
use crate::table_format::{lemma_max_seq_bound, max_seq_of, table_entries, table_newest, Entry};
use crate::text::seq_in_name;
use crate::wal::{recovered, Record};
use vstd::prelude::*;

verus! {

/// The edits of the manifest, with each file listed once.
pub open spec fn edits_in(d: Disk) -> Seq<Edit> {
    clean(recovered_edits(content(d, FileId::Manifest)))
}

/// The tables that the manifest lists for a column family, with their levels.
pub open spec fn files_in(d: Disk, cf: Seq<char>) -> FileList {
    files_of(edits_in(d), cf)
}

/// The column families that there are, in the order of their creation.
pub open spec fn families_in(d: Disk) -> Seq<Seq<char>> {
    families_of(edits_in(d))
}

/// What the files of one level show, the oldest first.
pub open spec fn stored_level(d: Disk, cf: Seq<char>, files: FileList, l: int) -> Layer {
    stack(
        valid_tables(d, cf, files, l).map_values(|f: (Seq<char>, Seq<u8>)| file_layer(f.1)),
    )
}

/// What the files of the levels from `l` on show.
pub open spec fn stored_tables(d: Disk, cf: Seq<char>, files: FileList, l: int) -> Layer
    decreases MAX_LEVELS - l,
{
    if l < 0 || l >= MAX_LEVELS {
        Map::empty()
    } else {
        stored_tables(d, cf, files, l + 1).union_prefer_right(stored_level(d, cf, files, l))
    }
}

/// What was last written to each key of a column family: what its tables show,
/// and on top of that what the records of its log do.
pub open spec fn stored(d: Disk, cf: Seq<char>) -> Layer {
    let base = stored_tables(d, cf, files_in(d, cf), 0);
    base.union_prefer_right(replay(base, recovered(content(d, FileId::Wal(cf)))))
}

// ---- sequence numbers ----------------------------------------------------------

/// The larger of two numbers.
pub open spec fn later(a: u64, b: u64) -> u64 {
    if a < b {
        b
    } else {
        a
    }
}

/// The largest sequence number of a record; 0 if there is none.
pub open spec fn records_newest(rs: Seq<Record>) -> u64
    decreases rs.len(),
{
    if rs.len() == 0 {
        0
    } else {
        later(records_newest(rs.drop_last()), rs.last().seq())
    }
}

/// The largest sequence number in the tables of a list; 0 if there is none.
pub open spec fn tables_newest(d: Disk, cf: Seq<char>, files: FileList) -> u64
    decreases files.len(),
{
    if files.len() == 0 {
        0
    } else {
        let before = tables_newest(d, cf, files.drop_last());
        match table_entries(content(d, FileId::Table(cf, files.last().1))) {
            Some(_) => if files.last().0 < MAX_LEVELS {
                later(
                    before,
                    table_newest(content(d, FileId::Table(cf, files.last().1))),
                )
            } else {
                before
            },
            None => before,
        }
    }
}

/// The largest number in the file names of a list; 0 if there is none.
pub open spec fn names_newest(files: FileList) -> u64
    decreases files.len(),
{
    if files.len() == 0 {
        0
    } else {
        let before = names_newest(files.drop_last());
        match seq_in_name(files.last().1) {
            Some(s) => later(before, s),
            None => before,
        }
    }
}

/// The largest sequence number that was written to a column family.
pub open spec fn family_newest(d: Disk, cf: Seq<char>) -> u64 {
    later(
        tables_newest(d, cf, files_in(d, cf)),
        records_newest(recovered(content(d, FileId::Wal(cf)))),
    )
}

/// The largest sequence number that was written to one of these families.
pub open spec fn families_newest(d: Disk, names: Seq<Seq<char>>) -> u64
    decreases names.len(),
{
    if names.len() == 0 {
        0
    } else {
        later(families_newest(d, names.drop_last()), family_newest(d, names.last()))
    }
}

/// The largest number in a file name of one of these families.
pub open spec fn files_newest(d: Disk, names: Seq<Seq<char>>) -> u64
    decreases names.len(),
{
    if names.len() == 0 {
        0
    } else {
        later(files_newest(d, names.drop_last()), names_newest(files_in(d, names.last())))
    }
}

/// The files can be opened: there are numbers left.
pub open spec fn openable(d: Disk) -> bool {
    &&& families_newest(d, families_in(d)) < u64::MAX
    &&& files_newest(d, families_in(d)) < u64::MAX
}

/// The same can be read from two sets of files: the same edits, the same tables and the
/// same records.
pub open spec fn reads_alike(a: Disk, b: Disk) -> bool {
    &&& edits_in(a) == edits_in(b)
    &&& forall|cf: Seq<char>, f: Seq<char>| #[trigger]
        content(a, FileId::Table(cf, f)) == content(b, FileId::Table(cf, f))
    &&& forall|cf: Seq<char>|
        recovered(#[trigger] content(a, FileId::Wal(cf))) == recovered(
            content(b, FileId::Wal(cf)),
        )
}

// ---- facts ---------------------------------------------------------------------

/// What the levels in memory show is what the files show that they were read from.
pub proof fn lemma_stored_tables(
    levels: Seq<Vec<SSTable>>,
    d: Disk,
    cf: Seq<char>,
    files: FileList,
    l: int,
)
    requires
        levels.len() == MAX_LEVELS,
        0 <= l <= MAX_LEVELS,
        forall|k: int, i: int|
            0 <= k < levels.len() && 0 <= i < levels[k]@.len() ==> (
            #[trigger] levels[k]@[i]).wf(),
        forall|k: int|
            0 <= k < MAX_LEVELS ==> level_files((#[trigger] levels[k])@) == valid_tables(
                d,
                cf,
                files,
                k,
            ),
    ensures
        stored_tables(d, cf, files, l) == levels_layer(levels, l),
    decreases MAX_LEVELS - l,
{
    if l < MAX_LEVELS {
        lemma_stored_tables(levels, d, cf, files, l + 1);
        let v = valid_tables(d, cf, files, l);
        assert(level_files(levels[l]@) == v);
        let a = v.map_values(|f: (Seq<char>, Seq<u8>)| file_layer(f.1));
        let b = table_layers(levels[l]@);
        assert forall|i: int| 0 <= i < a.len() implies a[i] == b[i] by {
            assert(levels[l]@[i].wf());
            lemma_table_is_file(levels[l]@[i]);
            assert(v[i] == (levels[l]@[i].name(), levels[l]@[i].bytes()));
        }
        assert(a =~= b);
    }
}

/// A bound on what a table shows is a bound on its entries.
pub proof fn lemma_entries_by(es: Seq<Entry>, m: u64)
    requires
        keys_ascend(es),
        written_by(assoc(es), m),
    ensures
        max_seq_of(es) <= m,
{
    assert forall|i: int| 0 <= i < es.len() implies (#[trigger] es[i]).1.seq <= m by {
        lemma_assoc_index(es, i);
        assert(assoc(es)[es[i].0].seq <= m);
    }
    lemma_max_seq_bound(es, m);
}

/// A table file of a list stands among those of its level.
proof fn lemma_valid_holds(d: Disk, cf: Seq<char>, files: FileList, i: int) -> (j: int)
    requires
        0 <= i < files.len(),
        table_entries(content(d, FileId::Table(cf, files[i].1))) is Some,
    ensures
        ({
            let v = valid_tables(d, cf, files, files[i].0 as int);
            0 <= j < v.len() && v[j] == (
                files[i].1,
                content(d, FileId::Table(cf, files[i].1)),
            )
        }),
    decreases files.len(),
{
    let v = valid_tables(d, cf, files, files[i].0 as int);
    if i == files.len() - 1 {
        v.len() - 1
    } else {
        let less = files.drop_last();
        assert(less[i] == files[i]);
        let j = lemma_valid_holds(d, cf, less, i);
        j
    }
}

proof fn lemma_tables_newest(
    levels: Seq<Vec<SSTable>>,
    d: Disk,
    cf: Seq<char>,
    files: FileList,
    n: int,
    m: u64,
)
    requires
        levels.len() == MAX_LEVELS,
        0 <= n <= files.len(),
        levels_written_by(levels, m),
        forall|k: int, i: int|
            0 <= k < levels.len() && 0 <= i < levels[k]@.len() ==> (
            #[trigger] levels[k]@[i]).wf(),
        forall|k: int|
            0 <= k < MAX_LEVELS ==> level_files((#[trigger] levels[k])@) == valid_tables(
                d,
                cf,
                files,
                k,
            ),
    ensures
        tables_newest(d, cf, files.take(n)) <= m,
    decreases n,
{
    if n > 0 {
        lemma_tables_newest(levels, d, cf, files, n - 1, m);
        let t = files.take(n);
        assert(t.drop_last() =~= files.take(n - 1));
        let f = files[n - 1];
        assert(t.last() == f);
        let data = content(d, FileId::Table(cf, f.1));
        if table_entries(data) is Some && f.0 < MAX_LEVELS {
            let j = lemma_valid_holds(d, cf, files, n - 1);
            let l = f.0 as int;
            assert(level_files(levels[l]@) == valid_tables(d, cf, files, l));
            let table = levels[l]@[j];
            assert(level_files(levels[l]@)[j] == (table.name(), table.bytes()));
            assert(table.newest() <= m);
        }
    }
}

proof fn lemma_records_newest(rs: Seq<Record>, write_seq: u64)
    requires
        seqs_below(rs, write_seq),
        write_seq >= 1,
    ensures
        records_newest(rs) < write_seq,
    decreases rs.len(),
{
    if rs.len() > 0 {
        let less = rs.drop_last();
        assert forall|i: int| 0 <= i < less.len() implies (#[trigger] less[i]).seq() < write_seq by {
            assert(less[i] == rs[i]);
        }
        lemma_records_newest(less, write_seq);
        assert(rs[rs.len() - 1].seq() < write_seq);
    }
}

/// The largest number of a record bounds them all.
pub proof fn lemma_records_bound(rs: Seq<Record>, i: int)
    requires
        0 <= i < rs.len(),
    ensures
        rs[i].seq() <= records_newest(rs),
    decreases rs.len(),
{
    if i < rs.len() - 1 {
        lemma_records_bound(rs.drop_last(), i);
    }
}

/// What a log makes has no other sequence numbers than its records.
pub proof fn lemma_replay_written(base: Layer, rs: Seq<Record>, m: u64)
    requires
        records_newest(rs) <= m,
    ensures
        written_by(replay(base, rs), m),
    decreases rs.len(),
{
    if rs.len() > 0 {
        lemma_replay_written(base, rs.drop_last(), m);
        let before = replay(base, rs.drop_last());
        let after = apply_record(before, base, rs.last());
        assert forall|k: Seq<u8>| after.contains_key(k) implies (#[trigger] after[k]).seq <= m by {
            if before.contains_key(k) {
                assert(before[k].seq <= m);
            }
        }
    }
}

proof fn lemma_names_newest(files: FileList, n: int, next_file: u64)
    requires
        numbered_below(files, next_file),
        0 <= n <= files.len(),
    ensures
        names_newest(files.take(n)) < next_file || names_newest(files.take(n)) == 0,
    decreases n,
{
    if n > 0 {
        lemma_names_newest(files, n - 1, next_file);
        assert(files.take(n).drop_last() =~= files.take(n - 1));
        assert(files.take(n).last() == files[n - 1]);
        let f = files[n - 1];
    }
}

/// The largest number of a name bounds them all.
pub proof fn lemma_names_bound(files: FileList, next_file: u64)
    requires
        names_newest(files) < next_file,
    ensures
        numbered_below(files, next_file),
    decreases files.len(),
{
    if files.len() > 0 {
        let less = files.drop_last();
        lemma_names_bound(less, next_file);
        assert forall|i: int| 0 <= i < files.len() implies (seq_in_name((
        #[trigger] files[i]).1) matches Some(s) ==> s < next_file) by {
            if i < less.len() {
                assert(less[i] == files[i]);
            }
        }
    }
}

/// What tables hold that were read from files, and what the log does on top of it.
pub proof fn lemma_levels_stored(
    levels: Seq<Vec<SSTable>>,
    d: Disk,
    cf: Seq<char>,
    write_seq: u64,
    next_file: u64,
)
    requires
        write_seq >= 1,
        levels.len() == MAX_LEVELS,
        forall|k: int, i: int|
            0 <= k < levels.len() && 0 <= i < levels[k]@.len() ==> (
            #[trigger] levels[k]@[i]).wf(),
        forall|k: int|
            0 <= k < MAX_LEVELS ==> level_files((#[trigger] levels[k])@) == valid_tables(
                d,
                cf,
                files_in(d, cf),
                k,
            ),
        levels_written_by(levels, (write_seq - 1) as u64),
        numbered_below(files_in(d, cf), next_file),
        seqs_below(recovered(content(d, FileId::Wal(cf))), write_seq),
    ensures
        ({
            let base = levels_layer(levels, 0);
            stored(d, cf) == base.union_prefer_right(
                replay(base, recovered(content(d, FileId::Wal(cf)))),
            )
        }),
        family_newest(d, cf) < write_seq,
        names_newest(files_in(d, cf)) < u64::MAX,
{
    let files = files_in(d, cf);
    lemma_stored_tables(levels, d, cf, files, 0);
    lemma_tables_newest(levels, d, cf, files, files.len() as int, (write_seq - 1) as u64);
    assert(files.take(files.len() as int) =~= files);
    lemma_records_newest(recovered(content(d, FileId::Wal(cf))), write_seq);
    lemma_names_newest(files, files.len() as int, next_file);
}

/// A family in memory that is what its files say holds what they hold.
pub proof fn lemma_family_stored(cf: CfState, d: Disk, write_seq: u64, next_file: u64)
    requires
        family_ok(cf, d, files_in(d, cf.name@), write_seq, next_file),
    ensures
        cf.contents() == stored(d, cf.name@),
        family_newest(d, cf.name@) < write_seq,
        names_newest(files_in(d, cf.name@)) < u64::MAX,
{
    lemma_contents(&cf);
    lemma_levels_stored(cf.levels@, d, cf.name@, write_seq, next_file);
}

/// A bound on every family bounds them all.
pub proof fn lemma_families_newest(d: Disk, names: Seq<Seq<char>>, write_seq: u64)
    requires
        write_seq >= 1,
        forall|i: int|
            0 <= i < names.len() ==> family_newest(d, #[trigger] names[i]) < write_seq
                && names_newest(files_in(d, names[i])) < u64::MAX,
    ensures
        families_newest(d, names) < write_seq,
        files_newest(d, names) < u64::MAX,
    decreases names.len(),
{
    if names.len() > 0 {
        let less = names.drop_last();
        assert forall|i: int| 0 <= i < less.len() implies family_newest(d, #[trigger] less[i])
            < write_seq && names_newest(files_in(d, less[i])) < u64::MAX by {
            assert(less[i] == names[i]);
        }
        lemma_families_newest(d, less, write_seq);
        let last = names[names.len() - 1];
    }
}

/// No family is created twice, and their names can be written.
pub proof fn lemma_families(es: Seq<Edit>)
    requires
        edits_fit(es),
    ensures
        forall|i: int, j: int|
            0 <= i < j < families_of(es).len() ==> (#[trigger] families_of(es)[i]) != (
            #[trigger] families_of(es)[j]),
        forall|i: int| 0 <= i < families_of(es).len() ==> name_fits(#[trigger] families_of(es)[i]),
    decreases es.len(),
{
    if es.len() > 0 {
        let less = es.drop_last();
        assert forall|i: int| 0 <= i < less.len() implies edit_fits(#[trigger] less[i]) by {
            assert(less[i] == es[i]);
        }
        lemma_families(less);
        let a = families_of(less);
        let b = families_of(es);
        assert(edit_fits(es[es.len() - 1]));
        assert forall|i: int, j: int| 0 <= i < j < b.len() implies (#[trigger] b[i]) != (
        #[trigger] b[j]) by {
            assert(a[i] == b[i]);
            if j < a.len() {
                assert(a[j] == b[j]);
            }
        }
        assert forall|i: int| 0 <= i < b.len() implies name_fits(#[trigger] b[i]) by {
            if i < a.len() {
                assert(a[i] == b[i]);
            }
        }
    }
}

// ---- files that read alike -------------------------------------------------------

proof fn lemma_alike_tables(a: Disk, b: Disk, cf: Seq<char>, files: FileList, l: int)
    requires
        reads_alike(a, b),
        l >= 0,
    ensures
        stored_tables(a, cf, files, l) == stored_tables(b, cf, files, l),
    decreases MAX_LEVELS - l,
{
    if l < MAX_LEVELS {
        lemma_alike_tables(a, b, cf, files, l + 1);
        lemma_valid_frame(a, b, cf, files, l);
    }
}

proof fn lemma_alike_tables_newest(a: Disk, b: Disk, cf: Seq<char>, files: FileList)
    requires
        reads_alike(a, b),
    ensures
        tables_newest(a, cf, files) == tables_newest(b, cf, files),
    decreases files.len(),
{
    if files.len() > 0 {
        lemma_alike_tables_newest(a, b, cf, files.drop_last());
        assert(content(a, FileId::Table(cf, files.last().1)) == content(
            b,
            FileId::Table(cf, files.last().1),
        ));
    }
}

proof fn lemma_alike_newest(a: Disk, b: Disk, list: Seq<Seq<char>>)
    requires
        reads_alike(a, b),
    ensures
        families_newest(a, list) == families_newest(b, list),
        files_newest(a, list) == files_newest(b, list),
    decreases list.len(),
{
    if list.len() > 0 {
        lemma_alike_newest(a, b, list.drop_last());
        lemma_alike_tables_newest(a, b, list.last(), files_in(a, list.last()));
        assert(recovered(content(a, FileId::Wal(list.last()))) == recovered(
            content(b, FileId::Wal(list.last())),
        ));
    }
}

/// Files that read alike hold the same.
pub proof fn lemma_reads_alike(a: Disk, b: Disk)
    requires
        reads_alike(a, b),
    ensures
        openable(a) == openable(b),
        families_in(a) == families_in(b),
        forall|cf: Seq<char>| #[trigger] stored(a, cf) == stored(b, cf),
{
    lemma_alike_newest(a, b, families_in(a));
    assert forall|cf: Seq<char>| #[trigger] stored(a, cf) == stored(b, cf) by {
        lemma_alike_tables(a, b, cf, files_in(a, cf), 0);
        assert(recovered(content(a, FileId::Wal(cf))) == recovered(content(b, FileId::Wal(cf))));
    }
}

// ---- laws ----------------------------------------------------------------------

/// One more record in the log of a family changes what its files hold as writing it does.
pub proof fn law_logged_record_counts(a: Disk, b: Disk, cf: Seq<char>, r: Record)
    requires
        files_in(a, cf) == files_in(b, cf),
        forall|f: Seq<char>| #[trigger]
            content(a, FileId::Table(cf, f)) == content(b, FileId::Table(cf, f)),
        recovered(content(b, FileId::Wal(cf))) == recovered(content(a, FileId::Wal(cf))).push(r),
    ensures
        stored(b, cf) == written(stored(a, cf), r),
{
    let files = files_in(a, cf);
    let base = stored_tables(a, cf, files, 0);
    let rs = recovered(content(a, FileId::Wal(cf)));
    lemma_same_tables(a, b, cf, files, 0);
    assert(rs.push(r).drop_last() =~= rs);
    lemma_written(base, replay(base, rs), r);
}

proof fn lemma_same_valid(a: Disk, b: Disk, cf: Seq<char>, files: FileList, l: int)
    requires
        forall|f: Seq<char>| #[trigger]
            content(a, FileId::Table(cf, f)) == content(b, FileId::Table(cf, f)),
    ensures
        valid_tables(a, cf, files, l) == valid_tables(b, cf, files, l),
    decreases files.len(),
{
    if files.len() > 0 {
        lemma_same_valid(a, b, cf, files.drop_last(), l);
        assert(content(a, FileId::Table(cf, files.last().1)) == content(
            b,
            FileId::Table(cf, files.last().1),
        ));
    }
}

proof fn lemma_same_tables(a: Disk, b: Disk, cf: Seq<char>, files: FileList, l: int)
    requires
        0 <= l,
        forall|f: Seq<char>| #[trigger]
            content(a, FileId::Table(cf, f)) == content(b, FileId::Table(cf, f)),
    ensures
        stored_tables(a, cf, files, l) == stored_tables(b, cf, files, l),
    decreases MAX_LEVELS - l,
{
    if l < MAX_LEVELS {
        lemma_same_tables(a, b, cf, files, l + 1);
        lemma_same_valid(a, b, cf, files, l);
    }
}

/// The tables of a level are those files that are listed at it and can be opened, in the
/// order in which they are listed.
pub proof fn law_which_files_are_tables(
    d: Disk,
    cf: Seq<char>,
    files: FileList,
    level: u32,
    name: Seq<char>,
    l: int,
)
    ensures
        valid_tables(d, cf, Seq::empty(), l).len() == 0,
        ({
            let data = content(d, FileId::Table(cf, name));
            let before = valid_tables(d, cf, files, l);
            let after = valid_tables(d, cf, files.push((level, name)), l);
            &&& level == l && table_entries(data) is Some ==> after == before.push((name, data))
            &&& level != l || table_entries(data) is None ==> after == before
        }),
{
    assert(files.push((level, name)).drop_last() =~= files);
}

/// Files can be opened as long as there are numbers left, whatever else is wrong with them.
pub proof fn law_what_can_be_opened(d: Disk)
    requires
        forall|cf: Seq<char>, i: int|
            0 <= i < recovered(content(d, FileId::Wal(cf))).len() ==> (
            #[trigger] recovered(content(d, FileId::Wal(cf)))[i]).seq() < u64::MAX,
        forall|cf: Seq<char>, i: int|
            0 <= i < files_in(d, cf).len() ==> table_newest(
                content(d, FileId::Table(cf, (#[trigger] files_in(d, cf)[i]).1)),
            ) < u64::MAX && (seq_in_name(files_in(d, cf)[i].1) matches Some(n) ==> n < u64::MAX),
    ensures
        openable(d),
{
    lemma_numbers_left(d, families_in(d));
}

proof fn lemma_numbers_left(d: Disk, list: Seq<Seq<char>>)
    requires
        forall|cf: Seq<char>, i: int|
            0 <= i < recovered(content(d, FileId::Wal(cf))).len() ==> (
            #[trigger] recovered(content(d, FileId::Wal(cf)))[i]).seq() < u64::MAX,
        forall|cf: Seq<char>, i: int|
            0 <= i < files_in(d, cf).len() ==> table_newest(
                content(d, FileId::Table(cf, (#[trigger] files_in(d, cf)[i]).1)),
            ) < u64::MAX && (seq_in_name(files_in(d, cf)[i].1) matches Some(n) ==> n < u64::MAX),
    ensures
        families_newest(d, list) < u64::MAX,
        files_newest(d, list) < u64::MAX,
    decreases list.len(),
{
    if list.len() > 0 {
        lemma_numbers_left(d, list.drop_last());
        let cf = list.last();
        lemma_records_left(recovered(content(d, FileId::Wal(cf))));
        lemma_files_left(d, cf, files_in(d, cf));
    }
}

proof fn lemma_records_left(rs: Seq<Record>)
    requires
        forall|i: int| 0 <= i < rs.len() ==> (#[trigger] rs[i]).seq() < u64::MAX,
    ensures
        records_newest(rs) < u64::MAX,
    decreases rs.len(),
{
    if rs.len() > 0 {
        let less = rs.drop_last();
        assert forall|i: int| 0 <= i < less.len() implies (#[trigger] less[i]).seq() < u64::MAX by {
            assert(less[i] == rs[i]);
        }
        lemma_records_left(less);
        assert(rs[rs.len() - 1].seq() < u64::MAX);
    }
}

proof fn lemma_files_left(d: Disk, cf: Seq<char>, files: FileList)
    requires
        forall|i: int|
            0 <= i < files.len() ==> table_newest(
                content(d, FileId::Table(cf, (#[trigger] files[i]).1)),
            ) < u64::MAX && (seq_in_name(files[i].1) matches Some(n) ==> n < u64::MAX),
    ensures
        tables_newest(d, cf, files) < u64::MAX,
        names_newest(files) < u64::MAX,
    decreases files.len(),
{
    if files.len() > 0 {
        let less = files.drop_last();
        assert forall|i: int| 0 <= i < less.len() implies table_newest(
            content(d, FileId::Table(cf, (#[trigger] less[i]).1)),
        ) < u64::MAX && (seq_in_name(less[i].1) matches Some(n) ==> n < u64::MAX) by {
            assert(less[i] == files[i]);
        }
        lemma_files_left(d, cf, less);
        assert(table_newest(content(d, FileId::Table(cf, files[files.len() - 1].1))) < u64::MAX);
    }
}

} // verus!
