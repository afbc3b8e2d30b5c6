//! Replacing merged files by the file that they were merged into.

use crate::compaction::{compacted, dropped, file_layer, lemma_without_dead_is_live, merged};
use crate::family::{lemma_contents, lemma_table_by, level_layer, levels_layer, table_layers, written_by, CfState,
    MAX_LEVELS};
use crate::layers::{lemma_hide_assoc, lemma_live_below, lemma_live_idempotent, lemma_stack_concat,
    lemma_submap_below, live, stack, Layer};
use crate::listing::lemma_listed_fits;
use crate::manifest::{edit_fits, families_of, files_of,
    law_manifest_returns_what_was_logged, lemma_manifest_concat, manifest_of, name_fits,
    recovered_edits, without, Edit};
use crate::memtable::{MemEntry, Version};
use crate::recovery::{distinct, family_names, family_ok, lemma_family_frame, lemma_files_push,
    lemma_levels_frame, lemma_table_name_fits, lemma_valid_frame, lemma_without_distinct,
    lemma_without_lists, lemma_without_numbered, level_files, lists, numbered_below, sound_edits,
    state_ok, valid_tables, FileList};
use crate::replay::lemma_replay_same;
use crate::sstable::SSTable;
use crate::storage::{content, Disk, FileId};
use crate::stored::lemma_entries_by;
use crate::table_format::table_entries;
use crate::text::{law_table_name_keeps_seq, seq_in_name, table_name};
use crate::wal::recovered;
use vstd::prelude::*;

verus! {

/// The edits that take names out of a family.
pub open spec fn removals(cf: Seq<char>, gone: Seq<Seq<char>>) -> Seq<Edit> {
    gone.map_values(|f: Seq<char>| Edit::RemoveFile { cf, filename: f })
}

/// The edit that adds a new file, if there is one.
pub open spec fn addition(cf: Seq<char>, level: u32, t: Option<SSTable>) -> Seq<Edit> {
    match t {
        Some(t) => seq![Edit::AddFile { cf, level, filename: t.name() }],
        None => Seq::empty(),
    }
}

/// The edits of a compaction.
pub open spec fn compaction_edits(
    cf: Seq<char>,
    gone: Seq<Seq<char>>,
    level: u32,
    t: Option<SSTable>,
) -> Seq<Edit> {
    removals(cf, gone) + addition(cf, level, t)
}

/// A list of files without any of the names `gone`.
pub open spec fn without_all(files: FileList, gone: Seq<Seq<char>>) -> FileList
    decreases gone.len(),
{
    if gone.len() == 0 {
        files
    } else {
        without(without_all(files, gone.drop_last()), gone.last())
    }
}

/// Named files without those called `name`.
pub open spec fn drop_name(v: Seq<(Seq<char>, Seq<u8>)>, name: Seq<char>) -> Seq<
    (Seq<char>, Seq<u8>),
>
    decreases v.len(),
{
    if v.len() == 0 {
        Seq::empty()
    } else if v.last().0 == name {
        drop_name(v.drop_last(), name)
    } else {
        drop_name(v.drop_last(), name).push(v.last())
    }
}

/// Named files without any of the names `gone`.
pub open spec fn drop_names(v: Seq<(Seq<char>, Seq<u8>)>, gone: Seq<Seq<char>>) -> Seq<
    (Seq<char>, Seq<u8>),
>
    decreases gone.len(),
{
    if gone.len() == 0 {
        v
    } else {
        drop_name(drop_names(v, gone.drop_last()), gone.last())
    }
}

proof fn lemma_valid_without(d: Disk, cf: Seq<char>, files: FileList, name: Seq<char>, l: int)
    ensures
        valid_tables(d, cf, without(files, name), l) == drop_name(
            valid_tables(d, cf, files, l),
            name,
        ),
    decreases files.len(),
{
    if files.len() > 0 {
        let less = files.drop_last();
        lemma_valid_without(d, cf, less, name, l);
        let w = without(less, name);
        let v = valid_tables(d, cf, less, l);
        let data = content(d, FileId::Table(cf, files.last().1));
        if files.last().1 != name {
            assert(w.push(files.last()).drop_last() =~= w);
        }
        if files.last().0 == l && table_entries(data) is Some {
            let x = (files.last().1, data);
            assert(v.push(x).drop_last() =~= v);
        }
    }
}

proof fn lemma_valid_without_all(
    d: Disk,
    cf: Seq<char>,
    files: FileList,
    gone: Seq<Seq<char>>,
    l: int,
)
    ensures
        valid_tables(d, cf, without_all(files, gone), l) == drop_names(
            valid_tables(d, cf, files, l),
            gone,
        ),
    decreases gone.len(),
{
    if gone.len() > 0 {
        lemma_valid_without_all(d, cf, files, gone.drop_last(), l);
        lemma_valid_without(d, cf, without_all(files, gone.drop_last()), gone.last(), l);
    }
}

proof fn lemma_without_all_lists(files: FileList, gone: Seq<Seq<char>>, name: Seq<char>)
    ensures
        lists(without_all(files, gone), name) <==> lists(files, name) && !gone.contains(name),
    decreases gone.len(),
{
    if gone.len() > 0 {
        let less = gone.drop_last();
        lemma_without_all_lists(files, less, name);
        lemma_without_lists(without_all(files, less), gone.last(), name);
        if gone.contains(name) {
            let i = choose|i: int| 0 <= i < gone.len() && gone[i] == name;
            if i < less.len() {
                assert(less[i] == name);
            }
        }
        if less.contains(name) {
            let i = choose|i: int| 0 <= i < less.len() && less[i] == name;
            assert(gone[i] == name);
        }
        if gone.last() == name {
            assert(gone[gone.len() - 1] == name);
        }
    }
}

proof fn lemma_without_all_keeps(files: FileList, gone: Seq<Seq<char>>, next_file: u64)
    requires
        distinct(files),
        numbered_below(files, next_file),
    ensures
        distinct(without_all(files, gone)),
        numbered_below(without_all(files, gone), next_file),
    decreases gone.len(),
{
    if gone.len() > 0 {
        let less = gone.drop_last();
        lemma_without_all_keeps(files, less, next_file);
        lemma_without_distinct(without_all(files, less), gone.last());
        lemma_without_numbered(without_all(files, less), gone.last(), next_file);
    }
}

proof fn lemma_drop_name_split(
    a: Seq<(Seq<char>, Seq<u8>)>,
    b: Seq<(Seq<char>, Seq<u8>)>,
    name: Seq<char>,
)
    ensures
        drop_name(a + b, name) == drop_name(a, name) + drop_name(b, name),
    decreases b.len(),
{
    if b.len() == 0 {
        assert(a + b =~= a);
        assert(drop_name(a, name) + drop_name(b, name) =~= drop_name(a, name));
    } else {
        lemma_drop_name_split(a, b.drop_last(), name);
        assert((a + b).drop_last() =~= a + b.drop_last());
        assert(drop_name(a + b, name) =~= drop_name(a, name) + drop_name(b, name));
    }
}

proof fn lemma_drop_name_absent(v: Seq<(Seq<char>, Seq<u8>)>, name: Seq<char>)
    requires
        forall|i: int| 0 <= i < v.len() ==> (#[trigger] v[i]).0 != name,
    ensures
        drop_name(v, name) == v,
    decreases v.len(),
{
    if v.len() > 0 {
        let less = v.drop_last();
        assert forall|i: int| 0 <= i < less.len() implies (#[trigger] less[i]).0 != name by {
            assert(less[i] == v[i]);
        }
        lemma_drop_name_absent(less, name);
        assert(v[v.len() - 1].0 != name);
        assert(v =~= less.push(v.last()));
    } else {
        assert(drop_name(v, name) =~= v);
    }
}

/// Named files of which none is taken out.
proof fn lemma_drop_names_absent(v: Seq<(Seq<char>, Seq<u8>)>, gone: Seq<Seq<char>>)
    requires
        forall|i: int| 0 <= i < v.len() ==> !gone.contains((#[trigger] v[i]).0),
    ensures
        drop_names(v, gone) == v,
    decreases gone.len(),
{
    if gone.len() > 0 {
        let less = gone.drop_last();
        assert forall|i: int| 0 <= i < v.len() implies !less.contains((#[trigger] v[i]).0) by {
            if less.contains(v[i].0) {
                let j = choose|j: int| 0 <= j < less.len() && less[j] == v[i].0;
                assert(gone[j] == v[i].0);
            }
        }
        lemma_drop_names_absent(v, less);
        assert forall|i: int| 0 <= i < v.len() implies (#[trigger] v[i]).0 != gone.last() by {
            assert(gone[gone.len() - 1] == gone.last());
        }
        lemma_drop_name_absent(v, gone.last());
    }
}

proof fn lemma_drop_name_keeps(v: Seq<(Seq<char>, Seq<u8>)>, name: Seq<char>, i: int)
    requires
        0 <= i < drop_name(v, name).len(),
    ensures
        v.contains(drop_name(v, name)[i]),
        drop_name(v, name)[i].0 != name,
    decreases v.len(),
{
    if v.len() > 0 {
        let less = v.drop_last();
        if i < drop_name(less, name).len() {
            lemma_drop_name_keeps(less, name, i);
            let x = drop_name(less, name)[i];
            let j = choose|j: int| 0 <= j < less.len() && less[j] == x;
            assert(v[j] == x);
        } else {
            assert(v[v.len() - 1] == v.last());
        }
    }
}

proof fn lemma_drop_names_keeps(v: Seq<(Seq<char>, Seq<u8>)>, gone: Seq<Seq<char>>, i: int)
    requires
        0 <= i < drop_names(v, gone).len(),
    ensures
        v.contains(drop_names(v, gone)[i]),
        !gone.contains(drop_names(v, gone)[i].0),
    decreases gone.len(),
{
    if gone.len() > 0 {
        let less = gone.drop_last();
        let w = drop_names(v, less);
        lemma_drop_name_keeps(w, gone.last(), i);
        let x = drop_names(v, gone)[i];
        let j = choose|j: int| 0 <= j < w.len() && w[j] == x;
        lemma_drop_names_keeps(v, less, j);
        if gone.contains(x.0) {
            let a = choose|a: int| 0 <= a < gone.len() && gone[a] == x.0;
            if a < less.len() {
                assert(less[a] == x.0);
            }
        }
    } else {
        assert(v[i] == drop_names(v, gone)[i]);
    }
}

proof fn lemma_drop_names_split(
    a: Seq<(Seq<char>, Seq<u8>)>,
    b: Seq<(Seq<char>, Seq<u8>)>,
    gone: Seq<Seq<char>>,
)
    ensures
        drop_names(a + b, gone) == drop_names(a, gone) + drop_names(b, gone),
    decreases gone.len(),
{
    if gone.len() > 0 {
        lemma_drop_names_split(a, b, gone.drop_last());
        lemma_drop_name_split(
            drop_names(a, gone.drop_last()),
            drop_names(b, gone.drop_last()),
            gone.last(),
        );
    }
}

/// Named files that are all taken out.
proof fn lemma_drop_names_all(v: Seq<(Seq<char>, Seq<u8>)>, gone: Seq<Seq<char>>)
    requires
        forall|i: int| 0 <= i < v.len() ==> gone.contains((#[trigger] v[i]).0),
    ensures
        drop_names(v, gone) == Seq::<(Seq<char>, Seq<u8>)>::empty(),
{
    let w = drop_names(v, gone);
    if w.len() > 0 {
        lemma_drop_names_keeps(v, gone, 0);
        let j = choose|j: int| 0 <= j < v.len() && v[j] == w[0];
        assert(gone.contains(v[j].0));
    }
    assert(w =~= Seq::<(Seq<char>, Seq<u8>)>::empty());
}

/// A valid table of level `l` stands in the list with that level.
pub proof fn lemma_valid_listed(d: Disk, cf: Seq<char>, files: FileList, l: int, i: int) -> (j: int)
    requires
        0 <= i < valid_tables(d, cf, files, l).len(),
    ensures
        0 <= j < files.len(),
        files[j].0 == l,
        files[j].1 == valid_tables(d, cf, files, l)[i].0,
    decreases files.len(),
{
    let less = files.drop_last();
    let before = valid_tables(d, cf, less, l);
    if i < before.len() {
        let j = lemma_valid_listed(d, cf, less, l, i);
        assert(files[j] == less[j]);
        j
    } else {
        files.len() - 1
    }
}

/// The names of the valid tables of a level are distinct.
pub proof fn lemma_valid_distinct(d: Disk, cf: Seq<char>, files: FileList, l: int, a: int, b: int)
    requires
        distinct(files),
        0 <= a < b < valid_tables(d, cf, files, l).len(),
    ensures
        valid_tables(d, cf, files, l)[a].0 != valid_tables(d, cf, files, l)[b].0,
    decreases files.len(),
{
    let less = files.drop_last();
    let v = valid_tables(d, cf, files, l);
    let before = valid_tables(d, cf, less, l);
    assert forall|i: int, j: int| 0 <= i < j < less.len() implies (#[trigger] less[i]).1 != (
    #[trigger] less[j]).1 by {
        assert(less[i] == files[i] && less[j] == files[j]);
    }
    if b < before.len() {
        lemma_valid_distinct(d, cf, less, l, a, b);
    } else {
        let j = lemma_valid_listed(d, cf, less, l, a);
        assert(less[j] == files[j]);
        assert(files[j].1 != files[files.len() - 1].1);
    }
}

/// The files of a family after names were taken out.
proof fn lemma_files_removed(es: Seq<Edit>, cf: Seq<char>, gone: Seq<Seq<char>>, other: Seq<char>)
    ensures
        files_of(es + removals(cf, gone), other) == (if other == cf {
            without_all(files_of(es, cf), gone)
        } else {
            files_of(es, other)
        }),
        families_of(es + removals(cf, gone)) == families_of(es),
    decreases gone.len(),
{
    if gone.len() == 0 {
        assert(es + removals(cf, gone) =~= es);
    } else {
        let less = gone.drop_last();
        lemma_files_removed(es, cf, less, other);
        let e = Edit::RemoveFile { cf, filename: gone.last() };
        assert(es + removals(cf, gone) =~= (es + removals(cf, less)).push(e));
        lemma_files_push(es + removals(cf, less), e, other);
    }
}

/// The files of a family after a compaction.
pub proof fn lemma_files_compacted(
    es: Seq<Edit>,
    cf: Seq<char>,
    gone: Seq<Seq<char>>,
    level: u32,
    t: Option<SSTable>,
    other: Seq<char>,
)
    ensures
        families_of(es + compaction_edits(cf, gone, level, t)) == families_of(es),
        files_of(es + compaction_edits(cf, gone, level, t), other) == (if other != cf {
            files_of(es, other)
        } else {
            match t {
                Some(t) => without_all(files_of(es, cf), gone).push((level, t.name())),
                None => without_all(files_of(es, cf), gone),
            }
        }),
{
    lemma_files_removed(es, cf, gone, other);
    let r = es + removals(cf, gone);
    match t {
        Some(t) => {
            let e = Edit::AddFile { cf, level, filename: t.name() };
            assert(es + compaction_edits(cf, gone, level, Some(t)) =~= r.push(e));
            lemma_files_push(r, e, other);
        },
        None => {
            assert(es + compaction_edits(cf, gone, level, t) =~= r);
        },
    }
}

// ---- what is shown -------------------------------------------------------------

/// The tables of a list show what their files hold.
pub proof fn lemma_table_is_file(t: SSTable)
    requires
        t.wf(),
    ensures
        t@ == file_layer(t.bytes()),
{
    t.lemma_wf();
}

/// What a new table shows, if there is one.
pub open spec fn new_layer(t: Option<SSTable>) -> Layer {
    match t {
        Some(t) => t@,
        None => Map::empty(),
    }
}

/// The levels after a compaction of the first `n` files of `level` into the next.
pub open spec fn levels_compacted(
    a: Seq<Vec<SSTable>>,
    b: Seq<Vec<SSTable>>,
    level: int,
    n: int,
    t: Option<SSTable>,
) -> bool {
    &&& b.len() == a.len()
    &&& b[level]@ == a[level]@.skip(n)
    &&& b[level + 1]@ == (match t {
        Some(t) => seq![t],
        None => Seq::<SSTable>::empty(),
    })
    &&& forall|l: int|
        0 <= l < a.len() && l != level && l != level + 1 ==> (#[trigger] b[l])@ == a[l]@
}

/// A compaction changes nothing of what is live.
pub proof fn lemma_compaction_live(
    a: Seq<Vec<SSTable>>,
    b: Seq<Vec<SSTable>>,
    level: int,
    n: int,
    t: Option<SSTable>,
    drop_tombstones: bool,
)
    requires
        0 <= level,
        level + 1 < a.len(),
        0 <= n <= a[level]@.len(),
        levels_compacted(a, b, level, n, t),
        new_layer(t) == merged::<MemEntry>(
            level_layer(a[level]@.take(n)),
            level_layer(a[level + 1]@),
            drop_tombstones,
        ),
        drop_tombstones ==> forall|l: int|
            level + 1 < l < a.len() ==> (#[trigger] a[l])@.len() == 0,
    ensures
        live(levels_layer(b, 0)) == live(levels_layer(a, 0)),
        levels_layer(b, 0).submap_of(levels_layer(a, 0)),
        levels_layer(a, 0) == dropped(
            level_layer(a[level]@.take(n)),
            level_layer(a[level + 1]@),
            drop_tombstones,
        ).union_prefer_right(levels_layer(b, 0)),
{
    let below = levels_layer(a, level + 2);
    let src = level_layer(a[level]@.take(n));
    let rest = level_layer(a[level]@.skip(n));
    let tgt = level_layer(a[level + 1]@);
    let all = tgt.union_prefer_right(src);
    let gone = dropped(src, tgt, drop_tombstones);
    lemma_levels_frame(a, b, level + 2);
    // the source level is its merged part and the rest
    assert(table_layers(a[level]@) =~= table_layers(a[level]@.take(n)) + table_layers(
        a[level]@.skip(n),
    ));
    lemma_stack_concat(table_layers(a[level]@.take(n)), table_layers(a[level]@.skip(n)));
    assert(level_layer(a[level]@) == src.union_prefer_right(rest));
    // the target level after the merge
    assert(level_layer(b[level + 1]@) == new_layer(t)) by {
        match t {
            Some(t) => {
                assert(table_layers(b[level + 1]@) =~= seq![t@]);
                assert(seq![t@].drop_last() =~= Seq::<Layer>::empty());
                assert(Map::<Seq<u8>, Version>::empty().union_prefer_right(t@) =~= t@);
                reveal_with_fuel(stack, 2);
            },
            None => {
                assert(table_layers(b[level + 1]@) =~= Seq::<Layer>::empty());
            },
        }
    }
    let lower_a = below.union_prefer_right(tgt).union_prefer_right(src);
    let lower_b = below.union_prefer_right(new_layer(t));
    lemma_hide_assoc(below, tgt, src);
    assert(live(lower_a) == live(lower_b) && lower_b.submap_of(lower_a)) by {
        if drop_tombstones {
            lemma_empty_below(a, level + 2);
            lemma_without_dead_is_live(all);
            assert(Map::<Seq<u8>, Version>::empty().union_prefer_right(all) =~= all);
            assert(Map::<Seq<u8>, Version>::empty().union_prefer_right(live(all)) =~= live(all));
            lemma_live_idempotent(all);
        }
    }
    assert(lower_a =~= gone.union_prefer_right(lower_b)) by {
        if drop_tombstones {
            lemma_empty_below(a, level + 2);
            lemma_without_dead_is_live(all);
        }
    }
    assert(levels_layer(a, level + 1) == below.union_prefer_right(tgt));
    assert(levels_layer(b, level + 1) == lower_b);
    lemma_hide_assoc(below.union_prefer_right(tgt), src, rest);
    assert(levels_layer(a, level) == lower_a.union_prefer_right(rest));
    assert(levels_layer(b, level) == lower_b.union_prefer_right(rest));
    lemma_live_below(lower_a, lower_b, rest);
    lemma_submap_below(lower_a, lower_b, rest);
    lemma_hide_assoc(gone, lower_b, rest);
    lemma_live_up(a, b, level, gone);
}

proof fn lemma_empty_below(a: Seq<Vec<SSTable>>, l: int)
    requires
        0 <= l <= a.len(),
        forall|i: int| l <= i < a.len() ==> (#[trigger] a[i])@.len() == 0,
    ensures
        levels_layer(a, l) == Map::<Seq<u8>, Version>::empty(),
    decreases a.len() - l,
{
    if l < a.len() {
        lemma_empty_below(a, l + 1);
        assert(a[l]@.len() == 0);
        assert(table_layers(a[l]@) =~= Seq::<Layer>::empty());
        assert(levels_layer(a, l) =~= Map::<Seq<u8>, Version>::empty());
    }
}

proof fn lemma_live_up(a: Seq<Vec<SSTable>>, b: Seq<Vec<SSTable>>, l: int, gone: Layer)
    requires
        0 <= l < a.len(),
        a.len() == b.len(),
        live(levels_layer(a, l)) == live(levels_layer(b, l)),
        levels_layer(b, l).submap_of(levels_layer(a, l)),
        levels_layer(a, l) == gone.union_prefer_right(levels_layer(b, l)),
        forall|i: int| 0 <= i < l ==> (#[trigger] a[i])@ == b[i]@,
    ensures
        live(levels_layer(a, 0)) == live(levels_layer(b, 0)),
        levels_layer(b, 0).submap_of(levels_layer(a, 0)),
        levels_layer(a, 0) == gone.union_prefer_right(levels_layer(b, 0)),
    decreases l,
{
    if l > 0 {
        assert(a[l - 1]@ == b[l - 1]@);
        lemma_live_below(levels_layer(a, l), levels_layer(b, l), level_layer(a[l - 1]@));
        lemma_submap_below(levels_layer(a, l), levels_layer(b, l), level_layer(a[l - 1]@));
        lemma_hide_assoc(gone, levels_layer(b, l), level_layer(a[l - 1]@));
        lemma_live_up(a, b, l - 1, gone);
    }
}

// ---- the step ------------------------------------------------------------------

/// The names of tables.
pub open spec fn names_of(files: Seq<SSTable>) -> Seq<Seq<char>> {
    files.map_values(|t: SSTable| t.name())
}

/// The files changed as a compaction of a family changes them: the manifest got
/// its edits, merged files may be gone, and the new file is there.
pub open spec fn disk_compacted(
    d: Disk,
    e: Disk,
    cf: Seq<char>,
    gone: Seq<Seq<char>>,
    level: u32,
    t: Option<SSTable>,
) -> bool {
    &&& content(e, FileId::Manifest) == content(d, FileId::Manifest) + manifest_of(
        compaction_edits(cf, gone, level, t),
    )
    &&& forall|x: Seq<char>| #[trigger]
        content(e, FileId::Wal(x)) == content(d, FileId::Wal(x))
    &&& forall|x: Seq<char>, f: Seq<char>|
        (x != cf || !(gone.contains(f) || (t matches Some(t) && t.name() == f))) ==> #[trigger]
        content(e, FileId::Table(x, f)) == content(d, FileId::Table(x, f))
    &&& t matches Some(t) ==> content(e, FileId::Table(cf, t.name())) == t.bytes()
}

/// Which of the merged names are those of a level: all of its first `n` tables
/// and none of the others.
proof fn lemma_level_gone(
    cf: CfState,
    d: Disk,
    files: FileList,
    write_seq: u64,
    next_file: u64,
    level: int,
    n: int,
    l: int,
)
    requires
        family_ok(cf, d, files, write_seq, next_file),
        0 <= level,
        level + 1 < MAX_LEVELS,
        0 <= n <= cf.levels@[level]@.len(),
        0 <= l < MAX_LEVELS,
    ensures
        ({
            let gone = names_of(cf.levels@[level]@.take(n)) + names_of(cf.levels@[level + 1]@);
            let v = level_files(cf.levels@[l]@);
            drop_names(v, gone) == (if l == level {
                v.skip(n)
            } else if l == level + 1 {
                Seq::<(Seq<char>, Seq<u8>)>::empty()
            } else {
                v
            })
        }),
{
    let name = cf.name@;
    let src = cf.levels@[level]@;
    let tgt = cf.levels@[level + 1]@;
    let gone = names_of(src.take(n)) + names_of(tgt);
    let v = level_files(cf.levels@[l]@);
    assert(v == valid_tables(d, name, files, l));
    let sv = level_files(src);
    let tv = level_files(tgt);
    assert(sv == valid_tables(d, name, files, level));
    assert(tv == valid_tables(d, name, files, level + 1));
    // a name of another level is not among them
    assert forall|i: int| 0 <= i < v.len() && gone.contains((#[trigger] v[i]).0) implies l == level
        || l == level + 1 by {
        let g = choose|g: int| 0 <= g < gone.len() && gone[g] == v[i].0;
        let x = lemma_valid_listed(d, name, files, l, i);
        if g < n {
            assert(gone[g] == src[g].name());
            assert(sv[g].0 == src[g].name());
            let y = lemma_valid_listed(d, name, files, level, g);
            if x < y {
                assert(files[x].1 != files[y].1);
            } else if y < x {
                assert(files[y].1 != files[x].1);
            }
        } else {
            assert(gone[g] == tgt[g - n].name());
            assert(tv[g - n].0 == tgt[g - n].name());
            let y = lemma_valid_listed(d, name, files, level + 1, g - n);
            if x < y {
                assert(files[x].1 != files[y].1);
            } else if y < x {
                assert(files[y].1 != files[x].1);
            }
        }
    }
    if l == level {
        let a = v.take(n);
        let b = v.skip(n);
        assert(v =~= a + b);
        lemma_drop_names_split(a, b, gone);
        assert forall|i: int| 0 <= i < a.len() implies gone.contains((#[trigger] a[i]).0) by {
            assert(gone[i] == src[i].name());
            assert(a[i].0 == src[i].name());
        }
        lemma_drop_names_all(a, gone);
        assert forall|i: int| 0 <= i < b.len() implies !gone.contains((#[trigger] b[i]).0) by {
            assert(b[i] == v[i + n]);
            if gone.contains(b[i].0) {
                let g = choose|g: int| 0 <= g < gone.len() && gone[g] == b[i].0;
                if g < n {
                    assert(gone[g] == src[g].name());
                    assert(v[g].0 == src[g].name());
                    lemma_valid_distinct(d, name, files, l, g, i + n);
                } else {
                    assert(gone[g] == tgt[g - n].name());
                    assert(tv[g - n].0 == tgt[g - n].name());
                    let x = lemma_valid_listed(d, name, files, l, i + n);
                    let y = lemma_valid_listed(d, name, files, level + 1, g - n);
                    if x < y {
                        assert(files[x].1 != files[y].1);
                    } else if y < x {
                        assert(files[y].1 != files[x].1);
                    }
                }
            }
        }
        lemma_drop_names_absent(b, gone);
        assert(Seq::<(Seq<char>, Seq<u8>)>::empty() + b =~= b);
    } else if l == level + 1 {
        assert forall|i: int| 0 <= i < v.len() implies gone.contains((#[trigger] v[i]).0) by {
            assert(gone[n + i] == tgt[i].name());
            assert(v[i].0 == tgt[i].name());
        }
        lemma_drop_names_all(v, gone);
    } else {
        assert forall|i: int| 0 <= i < v.len() implies !gone.contains((#[trigger] v[i]).0) by {}
        lemma_drop_names_absent(v, gone);
    }
}

proof fn lemma_merged_written_by(a: Layer, b: Layer, drop_tombstones: bool, max_seq: u64)
    requires
        written_by(a, max_seq),
        written_by(b, max_seq),
    ensures
        written_by(merged::<MemEntry>(a, b, drop_tombstones), max_seq),
{
}

proof fn lemma_level_written_by(files: Seq<SSTable>, max_seq: u64)
    requires
        forall|i: int| 0 <= i < files.len() ==> written_by((#[trigger] files[i])@, max_seq),
    ensures
        written_by(level_layer(files), max_seq),
    decreases files.len(),
{
    if files.len() > 0 {
        let less = files.drop_last();
        assert forall|i: int| 0 <= i < less.len() implies written_by(
            (#[trigger] less[i])@,
            max_seq,
        ) by {
            assert(less[i] == files[i]);
        }
        lemma_level_written_by(less, max_seq);
        assert(table_layers(files).drop_last() =~= table_layers(less));
        let t = files[files.len() - 1];
        assert(written_by(t@, max_seq));
    }
}

/// A compaction keeps memory and files in step and changes nothing of what is live.
#[verifier::rlimit(60)]
pub proof fn lemma_compact_step(
    fams: Seq<CfState>,
    after: Seq<CfState>,
    log: Seq<u8>,
    d: Disk,
    e: Disk,
    write_seq: u64,
    next_file: u64,
    i: int,
    level: int,
    n: int,
    t: Option<SSTable>,
    drop_tombstones: bool,
    seq: u64,
)
    requires
        state_ok(fams, log, d, write_seq, next_file),
        0 <= i < fams.len(),
        0 <= level,
        level + 1 < MAX_LEVELS,
        0 <= n <= fams[i].levels@[level]@.len(),
        seq < next_file,
        !lists(
            files_of(recovered_edits(log), fams[i].name@),
            table_name((level + 1) as nat, seq as nat),
        ),
        drop_tombstones ==> forall|l: int|
            level + 1 < l < MAX_LEVELS ==> (#[trigger] fams[i].levels@[l])@.len() == 0,
        compacted(
            t,
            level_layer(fams[i].levels@[level]@.take(n)),
            level_layer(fams[i].levels@[level + 1]@),
            drop_tombstones,
            (level + 1) as nat,
            seq,
        ),
        disk_compacted(
            d,
            e,
            fams[i].name@,
            names_of(fams[i].levels@[level]@.take(n)) + names_of(fams[i].levels@[level + 1]@),
            (level + 1) as u32,
            t,
        ),
        after.len() == fams.len(),
        forall|j: int| 0 <= j < fams.len() && j != i ==> (#[trigger] after[j]) == fams[j],
        after[i].wf(),
        after[i].name@ == fams[i].name@,
        after[i].wal@ == fams[i].wal@,
        after[i].mem@ == fams[i].mem@,
        after[i].buried@ == fams[i].buried@.union_prefer_right(
            dropped(
                level_layer(fams[i].levels@[level]@.take(n)),
                level_layer(fams[i].levels@[level + 1]@),
                drop_tombstones,
            ),
        ),
        levels_compacted(fams[i].levels@, after[i].levels@, level, n, t),
    ensures
        state_ok(
            after,
            log + manifest_of(
                compaction_edits(
                    fams[i].name@,
                    names_of(fams[i].levels@[level]@.take(n)) + names_of(
                        fams[i].levels@[level + 1]@,
                    ),
                    (level + 1) as u32,
                    t,
                ),
            ),
            e,
            write_seq,
            next_file,
        ),
        live(after[i].contents()) == live(fams[i].contents()),
        after[i].contents().submap_of(fams[i].contents()),
        after[i].history() == fams[i].history(),
{
    let name = fams[i].name@;
    let src = fams[i].levels@[level]@;
    let tgt = fams[i].levels@[level + 1]@;
    let gone = names_of(src.take(n)) + names_of(tgt);
    let lv = (level + 1) as u32;
    let edits = compaction_edits(name, gone, lv, t);
    let es = recovered_edits(log);
    let more = es + edits;
    let files = files_of(es, name);
    let files2 = files_of(more, name);
    let left = without_all(files, gone);
    let ws1 = (write_seq - 1) as u64;
    assert(family_ok(fams[i], d, files, write_seq, next_file));
    // the manifest
    assert forall|k: int| 0 <= k < edits.len() implies edit_fits(#[trigger] edits[k]) by {
        if k < gone.len() {
            lemma_gone_fits(fams[i], d, log, fams, write_seq, next_file, i, level, n, k);
        } else {
            lemma_table_name_fits((level + 1) as nat, seq);
        }
    }
    assert forall|k: int| 0 <= k < more.len() implies edit_fits(#[trigger] more[k]) by {
        if k < es.len() {
            assert(more[k] == es[k]);
        } else {
            assert(more[k] == edits[k - es.len()]);
        }
    }
    lemma_manifest_concat(es, edits);
    law_manifest_returns_what_was_logged(more);
    lemma_files_compacted(es, name, gone, lv, t, name);
    lemma_without_all_keeps(files, gone, next_file);
    law_table_name_keeps_seq((level + 1) as nat, seq);
    let fresh = table_name((level + 1) as nat, seq as nat);
    lemma_without_all_lists(files, gone, fresh);
    assert(distinct(files2) && numbered_below(files2, next_file)) by {
        if t is Some {
            let f = (lv, fresh);
            assert(files2 == left.push(f));
            assert forall|a: int, b: int| 0 <= a < b < files2.len() implies (
            #[trigger] files2[a]).1 != (#[trigger] files2[b]).1 by {
                assert(files2[a] == left[a]);
                if b < left.len() {
                    assert(files2[b] == left[b]);
                } else {
                    assert(lists(left, left[a].1));
                }
            }
            assert forall|a: int| 0 <= a < files2.len() implies (seq_in_name((
            #[trigger] files2[a]).1) matches Some(s) ==> s < next_file) by {
                if a < left.len() {
                    assert(files2[a] == left[a]);
                }
            }
        }
    }
    // the tables
    assert forall|l: int| 0 <= l < MAX_LEVELS implies level_files(
        (#[trigger] after[i].levels@[l])@,
    ) == valid_tables(e, name, files2, l) by {
        let v = level_files(fams[i].levels@[l]@);
        assert(v == valid_tables(d, name, files, l));
        lemma_level_gone(fams[i], d, files, write_seq, next_file, level, n, l);
        lemma_valid_without_all(d, name, files, gone, l);
        assert forall|a: int| 0 <= a < left.len() implies content(
            d,
            FileId::Table(name, (#[trigger] left[a]).1),
        ) == content(e, FileId::Table(name, left[a].1)) by {
            assert(lists(left, left[a].1));
            lemma_without_all_lists(files, gone, left[a].1);
        }
        lemma_valid_frame(d, e, name, left, l);
        let b = after[i].levels@[l]@;
        match t {
            Some(table) => {
                table.lemma_wf();
                assert(files2.drop_last() =~= left);
                if l == level + 1 {
                    assert(level_files(b) =~= seq![(table.name(), table.bytes())]);
                    assert(Seq::<(Seq<char>, Seq<u8>)>::empty().push(
                        (table.name(), table.bytes()),
                    ) =~= seq![(table.name(), table.bytes())]);
                } else if l == level {
                    assert(level_files(b) =~= v.skip(n));
                }
            },
            None => {
                if l == level + 1 {
                    assert(level_files(b) =~= Seq::<(Seq<char>, Seq<u8>)>::empty());
                } else if l == level {
                    assert(level_files(b) =~= v.skip(n));
                }
            },
        }
    }
    // what is live
    lemma_compaction_live(
        fams[i].levels@,
        after[i].levels@,
        level,
        n,
        t,
        drop_tombstones,
    );
    lemma_replay_same(fams[i].tables(), after[i].tables(), recovered(fams[i].wal@));
    lemma_contents(&fams[i]);
    lemma_contents(&after[i]);
    lemma_live_below(after[i].tables(), fams[i].tables(), fams[i].mem@);
    lemma_submap_below(fams[i].tables(), after[i].tables(), fams[i].mem@);
    let buried = dropped(level_layer(src.take(n)), level_layer(tgt), drop_tombstones);
    lemma_hide_assoc(buried, after[i].tables(), fams[i].mem@);
    lemma_hide_assoc(fams[i].buried@, buried, after[i].contents());
    // sequence numbers
    assert forall|k: int| 0 <= k < src.take(n).len() implies written_by(
        (#[trigger] src.take(n)[k])@,
        ws1,
    ) by {
        assert(fams[i].levels@[level]@[k].newest() <= ws1);
        lemma_table_by(fams[i].levels@[level]@[k], ws1);
    }
    lemma_level_written_by(src.take(n), ws1);
    assert forall|k: int| 0 <= k < tgt.len() implies written_by((#[trigger] tgt[k])@, ws1) by {
        assert(fams[i].levels@[level + 1]@[k].newest() <= ws1);
        lemma_table_by(fams[i].levels@[level + 1]@[k], ws1);
    }
    lemma_level_written_by(tgt, ws1);
    lemma_merged_written_by(level_layer(src.take(n)), level_layer(tgt), drop_tombstones, ws1);
    assert forall|l: int, k: int|
        0 <= l < after[i].levels@.len() && 0 <= k < after[i].levels@[l]@.len() implies (
    #[trigger] after[i].levels@[l]@[k]).newest() <= ws1 by {
        if l == level {
            assert(after[i].levels@[l]@[k] == fams[i].levels@[l]@[k + n]);
            assert(fams[i].levels@[l]@[k + n].newest() <= ws1);
        } else if l == level + 1 {
            let table = t->0;
            table.lemma_wf();
            assert(after[i].levels@[l]@[k] == table);
            lemma_entries_by(table.entries(), ws1);
        } else {
            assert(after[i].levels@[l]@[k] == fams[i].levels@[l]@[k]);
            assert(fams[i].levels@[l]@[k].newest() <= ws1);
        }
    }
    assert(family_ok(after[i], e, files2, write_seq, next_file));
    // the other families
    assert forall|j: int| 0 <= j < after.len() implies family_ok(
        #[trigger] after[j],
        e,
        files_of(more, after[j].name@),
        write_seq,
        next_file,
    ) by {
        if j != i {
            assert(fams[j].name@ != name);
            lemma_files_compacted(es, name, gone, lv, t, fams[j].name@);
            lemma_family_frame(
                fams[j],
                d,
                e,
                files_of(es, fams[j].name@),
                write_seq,
                next_file,
                write_seq,
                next_file,
            );
        }
    }
    assert(family_names(after) =~= family_names(fams));
    assert forall|a: int, b: int| 0 <= a < b < after.len() implies (#[trigger] after[a]).name@ != (
    #[trigger] after[b]).name@ by {
        assert(fams[a].name@ != fams[b].name@);
    }
    assert(sound_edits(more)) by {
        assert forall|cf: Seq<char>| distinct(#[trigger] files_of(more, cf)) by {
            lemma_files_compacted(es, name, gone, lv, t, cf);
            assert(distinct(files_of(es, cf)));
        }
        assert forall|cf: Seq<char>| !families_of(more).contains(cf) implies (
        #[trigger] files_of(more, cf)).len() == 0 by {
            lemma_files_compacted(es, name, gone, lv, t, cf);
            assert(family_names(fams)[i] == name);
            assert(files_of(es, cf).len() == 0);
        }
    }
}

proof fn lemma_gone_fits(
    cf: CfState,
    d: Disk,
    log: Seq<u8>,
    fams: Seq<CfState>,
    write_seq: u64,
    next_file: u64,
    i: int,
    level: int,
    n: int,
    k: int,
)
    requires
        state_ok(fams, log, d, write_seq, next_file),
        0 <= i < fams.len(),
        cf == fams[i],
        0 <= level,
        level + 1 < MAX_LEVELS,
        0 <= n <= cf.levels@[level]@.len(),
        0 <= k < n + cf.levels@[level + 1]@.len(),
    ensures
        name_fits(cf.name@),
        name_fits((names_of(cf.levels@[level]@.take(n)) + names_of(cf.levels@[level + 1]@))[k]),
{
    let es = recovered_edits(log);
    let files = files_of(es, cf.name@);
    assert(family_ok(cf, d, files, write_seq, next_file));
    let gone = names_of(cf.levels@[level]@.take(n)) + names_of(cf.levels@[level + 1]@);
    if k < n {
        let v = level_files(cf.levels@[level]@);
        assert(v == valid_tables(d, cf.name@, files, level));
        assert(v[k].0 == gone[k]);
        let j = lemma_valid_listed(d, cf.name@, files, level, k);
        assert(files.contains(files[j]));
        lemma_listed_fits(es, cf.name@, files[j]);
    } else {
        let v = level_files(cf.levels@[level + 1]@);
        assert(v == valid_tables(d, cf.name@, files, level + 1));
        assert(v[k - n].0 == gone[k]);
        let j = lemma_valid_listed(d, cf.name@, files, level + 1, k - n);
        assert(files.contains(files[j]));
        lemma_listed_fits(es, cf.name@, files[j]);
    }
}

} // verus!
