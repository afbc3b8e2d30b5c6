//! A manifest that lists a file more than once, or a file of a family that was never
//! created, as one that does neither and shows the same.
//!
//! Of the places of a name only the one counts that is looked at first: at the lowest
//! level, and there the last. The others show nothing that it does not hide.

use crate::compaction::file_layer;
use crate::family::MAX_LEVELS;
use crate::layers::{lemma_hide_assoc, stack, Layer};
use crate::manifest::{drop_file, edit_fits, edit_views, edits_fit, families_of,
    file_list, files_of, lemma_recovered_edits_fit, listed, name_fits, names, recovered_edits, without,
    Edit, ManifestRecord, ManifestState};
use crate::recovery::{distinct, lemma_files_push, lemma_without_distinct, lemma_without_lists, lists,
    sound_edits, valid_tables, FileList};
use crate::storage::{content, Disk, FileId};
use crate::stored::{families_in, files_in, lemma_families, names_newest, stored_level, stored_tables,
    tables_newest};
use crate::table_format::{table_entries, table_newest};
use crate::text::seq_in_name;
use vstd::prelude::*;

verus! {

/// The name of `f` stands in a list with a lower level.
pub open spec fn listed_above(files: FileList, f: (u32, Seq<char>)) -> bool {
    exists|i: int| 0 <= i < files.len() && (#[trigger] files[i]).1 == f.1 && files[i].0 < f.0
}

/// A list with each name once: at its lowest level, and there where it stands last.
pub open spec fn once(files: FileList) -> FileList
    decreases files.len(),
{
    if files.len() == 0 {
        Seq::empty()
    } else {
        let before = once(files.drop_last());
        if listed_above(before, files.last()) {
            before
        } else {
            without(before, files.last().1).push(files.last())
        }
    }
}

/// The edits that create families.
pub open spec fn creates(list: Seq<Seq<char>>) -> Seq<Edit> {
    list.map_values(|name: Seq<char>| Edit::CreateCF { name })
}

/// The edits that add files to a family.
pub open spec fn adds(cf: Seq<char>, files: FileList) -> Seq<Edit> {
    files.map_values(|f: (u32, Seq<char>)| Edit::AddFile { cf, level: f.0, filename: f.1 })
}

/// The edits that list, once each, the files that families have after the edits `es`.
pub open spec fn listings(es: Seq<Edit>, list: Seq<Seq<char>>) -> Seq<Edit>
    decreases list.len(),
{
    if list.len() == 0 {
        Seq::empty()
    } else {
        listings(es, list.drop_last()) + adds(list.last(), once(files_of(es, list.last())))
    }
}

/// Edits after which no file is listed twice, and none of a family that was not created:
/// the same ones if that is so already, else those that create the families and list
/// their files once.
pub open spec fn clean(es: Seq<Edit>) -> Seq<Edit> {
    if sound_edits(es) {
        es
    } else {
        creates(families_of(es)) + listings(es, families_of(es))
    }
}

/// Whether the name of a file stands in a list with a lower level.
fn is_listed_above(files: &Vec<(u32, String)>, f: &(u32, String)) -> (r: bool)
    ensures
        r == listed_above(file_list(files@), (f.0, f.1@)),
{
    let ghost all = file_list(files@);
    let mut i: usize = 0;
    while i < files.len()
        invariant
            i <= files@.len(),
            all == file_list(files@),
            forall|j: int| 0 <= j < i ==> !((#[trigger] all[j]).1 == f.1@ && all[j].0 < f.0),
        decreases files@.len() - i,
    {
        assert(all[i as int] == (files@[i as int].0, files@[i as int].1@));
        if files[i].1 == f.1 && files[i].0 < f.0 {
            return true;
        }
        i = i + 1;
    }
    false
}

/// A list with each name once.
pub fn once_files(files: &Vec<(u32, String)>) -> (r: Vec<(u32, String)>)
    ensures
        file_list(r@) == once(file_list(files@)),
{
    let ghost all = file_list(files@);
    let mut r: Vec<(u32, String)> = Vec::new();
    let mut i: usize = 0;
    assert(all.take(0) =~= Seq::<(u32, Seq<char>)>::empty());
    assert(file_list(r@) =~= Seq::<(u32, Seq<char>)>::empty());
    while i < files.len()
        invariant
            i <= files@.len(),
            all == file_list(files@),
            file_list(r@) == once(all.take(i as int)),
        decreases files@.len() - i,
    {
        let ghost x = all[i as int];
        proof {
            let t = all.take(i + 1);
            assert(t.drop_last() =~= all.take(i as int));
            assert(t.last() == x);
            assert(x == (files@[i as int].0, files@[i as int].1@));
        }
        if !is_listed_above(&r, &files[i]) {
            r = drop_file(&r, &files[i].1);
            let ghost before = file_list(r@);
            r.push((files[i].0, files[i].1.clone()));
            assert(file_list(r@) =~= before.push(x));
        }
        i = i + 1;
    }
    assert(all.take(i as int) =~= all);
    r
}

/// Records that add files to a family.
fn push_additions(out: &mut Vec<ManifestRecord>, cf: &String, files: &Vec<(u32, String)>)
    ensures
        edit_views(final(out)@) == edit_views(old(out)@) + adds(cf@, file_list(files@)),
{
    let ghost start = edit_views(out@);
    let ghost all = file_list(files@);
    let mut i: usize = 0;
    assert(start + adds(cf@, all.take(0)) =~= start);
    while i < files.len()
        invariant
            i <= files@.len(),
            all == file_list(files@),
            edit_views(out@) == start + adds(cf@, all.take(i as int)),
        decreases files@.len() - i,
    {
        let ghost before = edit_views(out@);
        let rec: ManifestRecord = ManifestRecord::AddFile {
            cf: cf.clone(),
            level: files[i].0,
            filename: files[i].1.clone(),
        };
        let ghost e = rec@;
        out.push(rec);
        proof {
            assert(edit_views(out@) =~= before.push(e));
            assert(adds(cf@, all.take(i + 1)) =~= adds(cf@, all.take(i as int)).push(e));
            assert(edit_views(out@) =~= start + adds(cf@, all.take(i + 1)));
        }
        i = i + 1;
    }
    assert(all.take(i as int) =~= all);
}

/// The records that create the families of a manifest and list their files once.
pub fn relist(state: &ManifestState, Ghost(es): Ghost<Seq<Edit>>) -> (r: Vec<ManifestRecord>)
    requires
        state.wf(),
        state.is_after(es),
    ensures
        edit_views(r@) == creates(families_of(es)) + listings(es, families_of(es)),
{
    let ghost have = families_of(es);
    let mut r: Vec<ManifestRecord> = Vec::new();
    let mut i: usize = 0;
    assert(edit_views(r@) =~= creates(have.take(0)));
    while i < state.cfs.len()
        invariant
            i <= state.cfs@.len(),
            have == names(state.cfs@),
            edit_views(r@) == creates(have.take(i as int)),
        decreases state.cfs@.len() - i,
    {
        let ghost before = edit_views(r@);
        let rec: ManifestRecord = ManifestRecord::CreateCF { name: state.cfs[i].clone() };
        let ghost e = rec@;
        r.push(rec);
        proof {
            assert(edit_views(r@) =~= before.push(e));
            assert(creates(have.take(i + 1)) =~= creates(have.take(i as int)).push(e));
        }
        i = i + 1;
    }
    assert(have.take(i as int) =~= have);
    let ghost start = creates(have);
    let mut i: usize = 0;
    assert(have.take(0) =~= Seq::<Seq<char>>::empty());
    assert(start + listings(es, have.take(0)) =~= start);
    while i < state.cfs.len()
        invariant
            i <= state.cfs@.len(),
            state.wf(),
            state.is_after(es),
            have == names(state.cfs@),
            edit_views(r@) == start + listings(es, have.take(i as int)),
        decreases state.cfs@.len() - i,
    {
        let ghost before = edit_views(r@);
        let ghost name = have[i as int];
        let files: Vec<(u32, String)> = once_files(&state.files_in(&state.cfs[i]));
        push_additions(&mut r, &state.cfs[i], &files);
        proof {
            assert(listed(state.files@, name) == files_of(es, name));
            let t = have.take(i + 1);
            assert(t.drop_last() =~= have.take(i as int));
            assert(t.last() == name);
            assert(edit_views(r@) =~= start + listings(es, t));
        }
        i = i + 1;
    }
    assert(have.take(i as int) =~= have);
    r
}

// ---- names ---------------------------------------------------------------------

/// A list with one more name.
pub proof fn lemma_lists_push(files: FileList, f: (u32, Seq<char>), name: Seq<char>)
    ensures
        lists(files.push(f), name) <==> lists(files, name) || f.1 == name,
{
    let more = files.push(f);
    if lists(files, name) {
        let i = choose|i: int| 0 <= i < files.len() && (#[trigger] files[i]).1 == name;
        assert(more[i].1 == name);
    }
    if f.1 == name {
        assert(more[files.len() as int].1 == name);
    }
    if lists(more, name) {
        let i = choose|i: int| 0 <= i < more.len() && (#[trigger] more[i]).1 == name;
        if i < files.len() {
            assert(files[i].1 == name);
        }
    }
}

/// A list with each name once has the same names.
proof fn lemma_once_lists(files: FileList, name: Seq<char>)
    ensures
        lists(once(files), name) <==> lists(files, name),
    decreases files.len(),
{
    if files.len() > 0 {
        let less = files.drop_last();
        let f = files.last();
        lemma_once_lists(less, name);
        lemma_once_lists(less, f.1);
        assert(files =~= less.push(f));
        lemma_lists_push(less, f, name);
        if listed_above(once(less), f) {
            let i = choose|i: int|
                0 <= i < once(less).len() && (#[trigger] once(less)[i]).1 == f.1
                    && once(less)[i].0 < f.0;
            assert(lists(once(less), f.1));
        } else {
            lemma_without_lists(once(less), f.1, name);
            lemma_lists_push(without(once(less), f.1), f, name);
        }
    }
}

/// It has no name twice.
pub proof fn lemma_once_distinct(files: FileList)
    ensures
        distinct(once(files)),
    decreases files.len(),
{
    if files.len() > 0 {
        let before = once(files.drop_last());
        let f = files.last();
        lemma_once_distinct(files.drop_last());
        if !listed_above(before, f) {
            let w = without(before, f.1);
            let all = w.push(f);
            lemma_without_distinct(before, f.1);
            assert forall|i: int, j: int| 0 <= i < j < all.len() implies (#[trigger] all[i]).1 != (
            #[trigger] all[j]).1 by {
                assert(all[i] == w[i]);
                if j < w.len() {
                    assert(all[j] == w[j]);
                } else {
                    assert(lists(w, w[i].1));
                    lemma_without_lists(before, f.1, w[i].1);
                }
            }
        }
    }
}

proof fn lemma_without_absent(files: FileList, name: Seq<char>)
    requires
        !lists(files, name),
    ensures
        without(files, name) == files,
    decreases files.len(),
{
    if files.len() > 0 {
        let less = files.drop_last();
        assert(files =~= less.push(files.last()));
        lemma_lists_push(less, files.last(), name);
        lemma_without_absent(less, name);
    } else {
        assert(without(files, name) =~= files);
    }
}

/// A list that has no name twice stays as it is.
pub proof fn lemma_once_same(files: FileList)
    requires
        distinct(files),
    ensures
        once(files) == files,
    decreases files.len(),
{
    if files.len() > 0 {
        let less = files.drop_last();
        let f = files.last();
        assert forall|i: int, j: int| 0 <= i < j < less.len() implies (#[trigger] less[i]).1 != (
        #[trigger] less[j]).1 by {
            assert(less[i] == files[i] && less[j] == files[j]);
        }
        lemma_once_same(less);
        assert forall|i: int| 0 <= i < less.len() implies (#[trigger] less[i]).1 != f.1 by {
            assert(less[i] == files[i]);
            assert(files[i].1 != files[files.len() - 1].1);
        }
        lemma_without_absent(less, f.1);
        assert(files =~= less.push(f));
    } else {
        assert(once(files) =~= files);
    }
}

// ---- edits ---------------------------------------------------------------------

proof fn lemma_created(list: Seq<Seq<char>>, cf: Seq<char>)
    requires
        forall|i: int, j: int|
            0 <= i < j < list.len() ==> (#[trigger] list[i]) != (#[trigger] list[j]),
    ensures
        families_of(creates(list)) == list,
        files_of(creates(list), cf) == Seq::<(u32, Seq<char>)>::empty(),
    decreases list.len(),
{
    if list.len() > 0 {
        let less = list.drop_last();
        let name = list.last();
        assert forall|i: int, j: int| 0 <= i < j < less.len() implies (#[trigger] less[i]) != (
        #[trigger] less[j]) by {
            assert(less[i] == list[i] && less[j] == list[j]);
        }
        lemma_created(less, cf);
        let e = Edit::CreateCF { name };
        assert(creates(list) =~= creates(less).push(e));
        lemma_files_push(creates(less), e, cf);
        if less.contains(name) {
            let i = choose|i: int| 0 <= i < less.len() && less[i] == name;
            assert(list[i] != list[list.len() - 1]);
        }
        assert(less.push(name) =~= list);
    } else {
        assert(families_of(creates(list)) =~= list);
    }
}

proof fn lemma_added(es: Seq<Edit>, cf: Seq<char>, files: FileList, other: Seq<char>)
    ensures
        families_of(es + adds(cf, files)) == families_of(es),
        files_of(es + adds(cf, files), other) == (if other == cf {
            files_of(es, cf) + files
        } else {
            files_of(es, other)
        }),
    decreases files.len(),
{
    if files.len() == 0 {
        assert(es + adds(cf, files) =~= es);
        assert(files_of(es, cf) + files =~= files_of(es, cf));
    } else {
        let less = files.drop_last();
        let f = files.last();
        lemma_added(es, cf, less, other);
        let e = Edit::AddFile { cf, level: f.0, filename: f.1 };
        assert(es + adds(cf, files) =~= (es + adds(cf, less)).push(e));
        lemma_files_push(es + adds(cf, less), e, other);
        assert((files_of(es, cf) + less).push(f) =~= files_of(es, cf) + files);
    }
}

proof fn lemma_listings(start: Seq<Edit>, es: Seq<Edit>, list: Seq<Seq<char>>, cf: Seq<char>)
    requires
        forall|i: int, j: int|
            0 <= i < j < list.len() ==> (#[trigger] list[i]) != (#[trigger] list[j]),
        forall|x: Seq<char>| #[trigger]
            files_of(start, x) == Seq::<(u32, Seq<char>)>::empty(),
    ensures
        families_of(start + listings(es, list)) == families_of(start),
        files_of(start + listings(es, list), cf) == (if list.contains(cf) {
            once(files_of(es, cf))
        } else {
            Seq::<(u32, Seq<char>)>::empty()
        }),
    decreases list.len(),
{
    if list.len() == 0 {
        assert(start + listings(es, list) =~= start);
        assert(files_of(start, cf) == Seq::<(u32, Seq<char>)>::empty());
    } else {
        let less = list.drop_last();
        let name = list[list.len() - 1];
        assert forall|i: int, j: int| 0 <= i < j < less.len() implies (#[trigger] less[i]) != (
        #[trigger] less[j]) by {
            assert(less[i] == list[i] && less[j] == list[j]);
        }
        lemma_listings(start, es, less, cf);
        let files = once(files_of(es, name));
        lemma_added(start + listings(es, less), name, files, cf);
        assert(start + listings(es, list) =~= (start + listings(es, less)) + adds(name, files));
        if less.contains(cf) {
            let i = choose|i: int| 0 <= i < less.len() && less[i] == cf;
            assert(list[i] == cf);
            assert(list[i] != name);
        } else if list.contains(cf) {
            let i = choose|i: int| 0 <= i < list.len() && list[i] == cf;
            if i < less.len() {
                assert(less[i] == cf);
            }
            assert(Seq::<(u32, Seq<char>)>::empty() + files =~= files);
        }
    }
}

/// What is left in a list stood in it.
proof fn lemma_without_stood(files: FileList, name: Seq<char>, f: (u32, Seq<char>))
    requires
        without(files, name).contains(f),
    ensures
        files.contains(f),
    decreases files.len(),
{
    if files.len() > 0 {
        let less = files.drop_last();
        let w = without(files, name);
        let i = choose|i: int| 0 <= i < w.len() && w[i] == f;
        if i < without(less, name).len() {
            assert(without(less, name)[i] == f);
            lemma_without_stood(less, name, f);
            let j = choose|j: int| 0 <= j < less.len() && less[j] == f;
            assert(files[j] == f);
        } else {
            assert(files[files.len() - 1] == f);
        }
    }
}

proof fn lemma_once_stood(files: FileList, f: (u32, Seq<char>))
    requires
        once(files).contains(f),
    ensures
        files.contains(f),
    decreases files.len(),
{
    if files.len() > 0 {
        let less = files.drop_last();
        let before = once(less);
        let all = once(files);
        let last = files[files.len() - 1];
        let i = choose|i: int| 0 <= i < all.len() && all[i] == f;
        if !listed_above(before, last) {
            let w = without(before, last.1);
            if i < w.len() {
                assert(w[i] == f);
                lemma_without_stood(before, last.1, f);
            }
        }
        if before.contains(f) {
            lemma_once_stood(less, f);
            let j = choose|j: int| 0 <= j < less.len() && less[j] == f;
            assert(files[j] == f);
        }
    }
}

/// What is listed can be logged.
pub proof fn lemma_listed_fits(es: Seq<Edit>, cf: Seq<char>, f: (u32, Seq<char>))
    requires
        edits_fit(es),
        files_of(es, cf).contains(f),
    ensures
        edit_fits(Edit::AddFile { cf, level: f.0, filename: f.1 }),
    decreases es.len(),
{
    if es.len() > 0 {
        let less = es.drop_last();
        let before = files_of(less, cf);
        assert(edit_fits(es[es.len() - 1]));
        assert forall|i: int| 0 <= i < less.len() implies edit_fits(#[trigger] less[i]) by {
            assert(less[i] == es[i]);
        }
        match es.last() {
            Edit::RemoveFile { cf: c, filename } => {
                if c == cf {
                    lemma_without_stood(before, filename, f);
                }
            },
            Edit::AddFile { cf: c, level, filename } => {
                if c == cf {
                    let all = before.push((level, filename));
                    let i = choose|i: int| 0 <= i < all.len() && all[i] == f;
                    if i < before.len() {
                        assert(before[i] == f);
                    }
                }
            },
            Edit::CreateCF { name } => {},
        }
        if before.contains(f) {
            lemma_listed_fits(less, cf, f);
        }
    }
}

proof fn lemma_listings_fit(es: Seq<Edit>, list: Seq<Seq<char>>)
    requires
        edits_fit(es),
    ensures
        edits_fit(listings(es, list)),
    decreases list.len(),
{
    if list.len() > 0 {
        let less = list.drop_last();
        let name = list.last();
        let before = listings(es, less);
        let files = once(files_of(es, name));
        lemma_listings_fit(es, less);
        let all = listings(es, list);
        assert forall|i: int| 0 <= i < all.len() implies edit_fits(#[trigger] all[i]) by {
            if i < before.len() {
                assert(all[i] == before[i]);
            } else {
                let f = files[i - before.len()];
                assert(all[i] == adds(name, files)[i - before.len()]);
                assert(files.contains(f));
                lemma_once_stood(files_of(es, name), f);
                lemma_listed_fits(es, name, f);
            }
        }
    }
}

/// The clean edits can be logged, create the same families, and list the files of each
/// of them once and no others.
pub proof fn law_clean_lists_each_file_once(es: Seq<Edit>)
    requires
        edits_fit(es),
    ensures
        edits_fit(clean(es)),
        sound_edits(clean(es)),
        families_of(clean(es)) == families_of(es),
        forall|cf: Seq<char>| #[trigger]
            files_of(clean(es), cf) == (if families_of(es).contains(cf) {
                once(files_of(es, cf))
            } else {
                Seq::<(u32, Seq<char>)>::empty()
            }),
{
    let list = families_of(es);
    lemma_families(es);
    if sound_edits(es) {
        assert forall|cf: Seq<char>| #[trigger]
            files_of(clean(es), cf) == (if list.contains(cf) {
                once(files_of(es, cf))
            } else {
                Seq::<(u32, Seq<char>)>::empty()
            }) by {
            assert(distinct(files_of(es, cf)));
            lemma_once_same(files_of(es, cf));
            if !list.contains(cf) {
                assert(files_of(es, cf) =~= Seq::<(u32, Seq<char>)>::empty());
            }
        }
    } else {
        let start = creates(list);
        assert forall|x: Seq<char>| #[trigger]
            files_of(start, x) == Seq::<(u32, Seq<char>)>::empty() by {
            lemma_created(list, x);
        }
        lemma_created(list, Seq::empty());
        lemma_listings(start, es, list, Seq::empty());
        assert forall|cf: Seq<char>| #[trigger]
            files_of(clean(es), cf) == (if list.contains(cf) {
                once(files_of(es, cf))
            } else {
                Seq::<(u32, Seq<char>)>::empty()
            }) by {
            lemma_listings(start, es, list, cf);
        }
        lemma_listings_fit(es, list);
        let all = clean(es);
        assert forall|i: int| 0 <= i < all.len() implies edit_fits(#[trigger] all[i]) by {
            if i < start.len() {
                assert(all[i] == start[i]);
                assert(name_fits(list[i]));
            } else {
                assert(all[i] == listings(es, list)[i - start.len()]);
            }
        }
        assert(sound_edits(clean(es))) by {
            assert forall|cf: Seq<char>| distinct(#[trigger] files_of(clean(es), cf)) by {
                lemma_once_distinct(files_of(es, cf));
            }
        }
    }
}

// ---- what is shown -------------------------------------------------------------

/// What the files of the levels up to `l` show.
pub open spec fn shown_upto(d: Disk, cf: Seq<char>, files: FileList, l: int) -> Layer
    decreases l + 1,
{
    if l < 0 {
        Map::empty()
    } else {
        stored_level(d, cf, files, l).union_prefer_right(shown_upto(d, cf, files, l - 1))
    }
}

/// What a listed file shows.
pub open spec fn shown_by(d: Disk, cf: Seq<char>, name: Seq<char>) -> Layer {
    file_layer(content(d, FileId::Table(cf, name)))
}

/// The levels up to `l` lie on those below.
proof fn lemma_shown_split(d: Disk, cf: Seq<char>, files: FileList, l: int)
    requires
        -1 <= l < MAX_LEVELS,
    ensures
        stored_tables(d, cf, files, 0) == stored_tables(d, cf, files, l + 1).union_prefer_right(
            shown_upto(d, cf, files, l),
        ),
    decreases l + 1,
{
    if l < 0 {
        assert(stored_tables(d, cf, files, 0).union_prefer_right(shown_upto(d, cf, files, l))
            =~= stored_tables(d, cf, files, 0));
    } else {
        lemma_shown_split(d, cf, files, l - 1);
        lemma_hide_assoc(
            stored_tables(d, cf, files, l + 1),
            stored_level(d, cf, files, l),
            shown_upto(d, cf, files, l - 1),
        );
    }
}

/// A level with one more file in the list.
proof fn lemma_level_push(d: Disk, cf: Seq<char>, files: FileList, f: (u32, Seq<char>), l: int)
    ensures
        stored_level(d, cf, files.push(f), l) == (if f.0 == l {
            stored_level(d, cf, files, l).union_prefer_right(shown_by(d, cf, f.1))
        } else {
            stored_level(d, cf, files, l)
        }),
{
    let more = files.push(f);
    assert(more.drop_last() =~= files);
    let v = valid_tables(d, cf, files, l);
    let data = content(d, FileId::Table(cf, f.1));
    let layer = |x: (Seq<char>, Seq<u8>)| file_layer(x.1);
    let a = v.map_values(layer);
    if f.0 == l {
        if table_entries(data) is Some {
            assert(v.push((f.1, data)).map_values(layer) =~= a.push(file_layer(data)));
            assert(a.push(file_layer(data)).drop_last() =~= a);
        } else {
            assert(stack(a).union_prefer_right(shown_by(d, cf, f.1)) =~= stack(a));
        }
    }
}

/// The levels up to `l` with one more file in the list: it shows where nothing above its
/// level does.
proof fn lemma_shown_push(d: Disk, cf: Seq<char>, files: FileList, f: (u32, Seq<char>), l: int)
    ensures
        shown_upto(d, cf, files.push(f), l) == (if l < f.0 {
            shown_upto(d, cf, files, l)
        } else {
            shown_upto(d, cf, files, l).union_prefer_right(
                shown_by(d, cf, f.1).remove_keys(shown_upto(d, cf, files, f.0 - 1).dom()),
            )
        }),
    decreases l + 1,
{
    if l >= 0 {
        lemma_shown_push(d, cf, files, f, l - 1);
        lemma_level_push(d, cf, files, f, l);
        let t = shown_by(d, cf, f.1);
        let top = shown_upto(d, cf, files, f.0 - 1);
        let level = stored_level(d, cf, files, l);
        if l == f.0 {
            assert(level.union_prefer_right(t).union_prefer_right(top)
                =~= level.union_prefer_right(top).union_prefer_right(t.remove_keys(top.dom())));
        } else if l > f.0 {
            lemma_hide_assoc(
                level,
                shown_upto(d, cf, files, l - 1),
                t.remove_keys(top.dom()),
            );
        }
    }
}

/// What the upper levels show stays on top of more levels.
proof fn lemma_shown_more(d: Disk, cf: Seq<char>, files: FileList, m: int, l: int)
    requires
        m <= l,
    ensures
        shown_upto(d, cf, files, m).submap_of(shown_upto(d, cf, files, l)),
    decreases l - m,
{
    if m < l {
        lemma_shown_more(d, cf, files, m, l - 1);
        if l >= 0 {
            let a = shown_upto(d, cf, files, m);
            let b = shown_upto(d, cf, files, l - 1);
            let c = shown_upto(d, cf, files, l);
            assert forall|k: Seq<u8>| #[trigger] a.dom().contains(k) implies c.dom().contains(k)
                && a[k] == c[k] by {
                assert(b.dom().contains(k));
            }
        }
    }
}

/// A listed file shows, or something above it does.
proof fn lemma_listed_shows(d: Disk, cf: Seq<char>, files: FileList, i: int, l: int)
    requires
        0 <= i < files.len(),
        files[i].0 <= l,
    ensures
        shown_by(d, cf, files[i].1).dom().subset_of(shown_upto(d, cf, files, l).dom()),
    decreases files.len(),
{
    let less = files.drop_last();
    let f = files.last();
    assert(files =~= less.push(f));
    lemma_shown_push(d, cf, less, f, l);
    if i < less.len() {
        assert(less[i] == files[i]);
        lemma_listed_shows(d, cf, less, i, l);
    } else {
        let t = shown_by(d, cf, f.1);
        let top = shown_upto(d, cf, less, f.0 - 1);
        lemma_shown_more(d, cf, less, f.0 - 1, l);
        assert forall|k: Seq<u8>| t.dom().contains(k) implies shown_upto(
            d,
            cf,
            files,
            l,
        ).dom().contains(k) by {
            if top.dom().contains(k) {
                assert(shown_upto(d, cf, less, l).dom().contains(k));
            }
        }
    }
}

/// Taking a name out of a list changes nothing at the levels where it does not stand.
proof fn lemma_without_level(
    d: Disk,
    cf: Seq<char>,
    files: FileList,
    name: Seq<char>,
    a: int,
    l: int,
)
    requires
        l < a,
        forall|i: int| 0 <= i < files.len() && (#[trigger] files[i]).1 == name ==> files[i].0 >= a,
    ensures
        stored_level(d, cf, without(files, name), l) == stored_level(d, cf, files, l),
    decreases files.len(),
{
    if files.len() > 0 {
        let less = files.drop_last();
        let f = files[files.len() - 1];
        assert(files =~= less.push(f));
        assert forall|i: int|
            0 <= i < less.len() && (#[trigger] less[i]).1 == name implies less[i].0 >= a by {
            assert(less[i] == files[i]);
        }
        lemma_without_level(d, cf, less, name, a, l);
        lemma_level_push(d, cf, less, f, l);
        lemma_level_push(d, cf, without(less, name), f, l);
    }
}

proof fn lemma_without_upper(
    d: Disk,
    cf: Seq<char>,
    files: FileList,
    name: Seq<char>,
    a: int,
    l: int,
)
    requires
        l < a,
        forall|i: int| 0 <= i < files.len() && (#[trigger] files[i]).1 == name ==> files[i].0 >= a,
    ensures
        shown_upto(d, cf, without(files, name), l) == shown_upto(d, cf, files, l),
    decreases l + 1,
{
    if l >= 0 {
        lemma_without_upper(d, cf, files, name, a, l - 1);
        lemma_without_level(d, cf, files, name, a, l);
    }
}

/// Two layers have the same at a key.
spec fn same_at(a: Layer, b: Layer, k: Seq<u8>) -> bool {
    a.contains_key(k) == b.contains_key(k) && (a.contains_key(k) ==> a[k] == b[k])
}

/// Taking a name out of a list changes nothing at a key that its file does not show.
proof fn lemma_without_key_level(
    d: Disk,
    cf: Seq<char>,
    files: FileList,
    name: Seq<char>,
    l: int,
    k: Seq<u8>,
)
    requires
        !shown_by(d, cf, name).contains_key(k),
    ensures
        same_at(stored_level(d, cf, without(files, name), l), stored_level(d, cf, files, l), k),
    decreases files.len(),
{
    if files.len() > 0 {
        let less = files.drop_last();
        let f = files.last();
        assert(files =~= less.push(f));
        lemma_without_key_level(d, cf, less, name, l, k);
        lemma_level_push(d, cf, less, f, l);
        lemma_level_push(d, cf, without(less, name), f, l);
    }
}

proof fn lemma_without_key(
    d: Disk,
    cf: Seq<char>,
    files: FileList,
    name: Seq<char>,
    l: int,
    k: Seq<u8>,
)
    requires
        !shown_by(d, cf, name).contains_key(k),
    ensures
        same_at(shown_upto(d, cf, without(files, name), l), shown_upto(d, cf, files, l), k),
    decreases l + 1,
{
    if l >= 0 {
        lemma_without_key(d, cf, files, name, l - 1, k);
        lemma_without_key_level(d, cf, files, name, l, k);
    }
}

proof fn lemma_top_shows(top: Layer, all: Layer, k: Seq<u8>)
    requires
        top.submap_of(all),
        top.contains_key(k),
    ensures
        all.contains_key(k),
        all[k] == top[k],
{
    assert(top.dom().contains(k));
    assert(all.dom().contains(k));
}

/// A list with each name once shows the same at the levels up to any one.
#[verifier::spinoff_prover]
proof fn lemma_once_shows(d: Disk, cf: Seq<char>, files: FileList, l: int)
    ensures
        shown_upto(d, cf, once(files), l) == shown_upto(d, cf, files, l),
    decreases files.len(),
{
    if files.len() == 0 {
        assert(once(files) =~= files);
    } else {
        let less = files.drop_last();
        let f = files.last();
        let o = once(less);
        let a = f.0 as int;
        let t = shown_by(d, cf, f.1);
        let top = shown_upto(d, cf, less, a - 1);
        assert(files =~= less.push(f));
        lemma_once_shows(d, cf, less, l);
        lemma_once_shows(d, cf, less, a - 1);
        lemma_shown_push(d, cf, less, f, l);
        if listed_above(o, f) {
            let i = choose|i: int|
                0 <= i < o.len() && (#[trigger] o[i]).1 == f.1 && o[i].0 < f.0;
            lemma_listed_shows(d, cf, o, i, a - 1);
            let u = shown_upto(d, cf, less, l);
            assert(u.union_prefer_right(t.remove_keys(top.dom())) =~= u);
        } else {
            let w = without(o, f.1);
            lemma_shown_push(d, cf, w, f, l);
            lemma_without_upper(d, cf, o, f.1, a, a - 1);
            if l < a {
                lemma_without_upper(d, cf, o, f.1, a, l);
            } else {
                let x = shown_upto(d, cf, w, l);
                let y = shown_upto(d, cf, o, l);
                let add = t.remove_keys(top.dom());
                lemma_shown_more(d, cf, w, a - 1, l);
                lemma_shown_more(d, cf, o, a - 1, l);
                let p = x.union_prefer_right(add);
                let q = y.union_prefer_right(add);
                assert(top == shown_upto(d, cf, o, a - 1));
                assert(top == shown_upto(d, cf, w, a - 1));
                assert(top.submap_of(x) && top.submap_of(y));
                assert forall|k: Seq<u8>| #[trigger] same_at(p, q, k) by {
                    if !t.contains_key(k) {
                        lemma_without_key(d, cf, o, f.1, l, k);
                        assert(same_at(x, y, k));
                        assert(!add.contains_key(k));
                    } else if top.contains_key(k) {
                        assert(!add.contains_key(k));
                        lemma_top_shows(top, x, k);
                        lemma_top_shows(top, y, k);
                    } else {
                        assert(add.contains_key(k));
                    }
                }
                assert forall|k: Seq<u8>| #[trigger] p.dom().contains(k) == q.dom().contains(k) by {
                    assert(same_at(p, q, k));
                }
                assert forall|k: Seq<u8>| p.dom().contains(k) implies #[trigger] p[k] == q[k] by {
                    assert(same_at(p, q, k));
                }
                assert(p =~= q);
            }
        }
    }
}

/// Listing each file once changes nothing of what a family shows.
pub proof fn law_listing_once_shows_the_same(d: Disk, cf: Seq<char>, files: FileList)
    ensures
        stored_tables(d, cf, once(files), 0) == stored_tables(d, cf, files, 0),
{
    let l = MAX_LEVELS - 1;
    lemma_shown_split(d, cf, files, l);
    lemma_shown_split(d, cf, once(files), l);
    lemma_once_shows(d, cf, files, l);
}

// ---- numbers -------------------------------------------------------------------

/// Every place of a name has one at its level or a lower one in the list that has each
/// name once.
proof fn lemma_once_covers(files: FileList, i: int) -> (j: int)
    requires
        0 <= i < files.len(),
    ensures
        0 <= j < once(files).len(),
        once(files)[j].1 == files[i].1,
        once(files)[j].0 <= files[i].0,
    decreases files.len(),
{
    let less = files.drop_last();
    let f = files.last();
    let o = once(less);
    if listed_above(o, f) {
        if i < less.len() {
            assert(less[i] == files[i]);
            lemma_once_covers(less, i)
        } else {
            choose|j: int| 0 <= j < o.len() && (#[trigger] o[j]).1 == f.1 && o[j].0 < f.0
        }
    } else {
        let w = without(o, f.1);
        if i < less.len() {
            assert(less[i] == files[i]);
            let j = lemma_once_covers(less, i);
            if files[i].1 == f.1 {
                assert(!(o[j].0 < f.0));
                w.len() as int
            } else {
                lemma_without_keeps(o, f.1, j)
            }
        } else {
            w.len() as int
        }
    }
}

proof fn lemma_without_keeps(files: FileList, name: Seq<char>, j: int) -> (m: int)
    requires
        0 <= j < files.len(),
        files[j].1 != name,
    ensures
        0 <= m < without(files, name).len(),
        without(files, name)[m] == files[j],
    decreases files.len(),
{
    let less = files.drop_last();
    if j < less.len() {
        assert(less[j] == files[j]);
        lemma_without_keeps(less, name, j)
    } else {
        without(less, name).len() as int
    }
}

/// What a file counts for the largest sequence number of a family.
pub open spec fn newest_in(d: Disk, cf: Seq<char>, f: (u32, Seq<char>)) -> u64 {
    match table_entries(content(d, FileId::Table(cf, f.1))) {
        Some(_) => if f.0 < MAX_LEVELS {
            table_newest(content(d, FileId::Table(cf, f.1)))
        } else {
            0
        },
        None => 0,
    }
}

/// The number in the name of a file; 0 if there is none.
pub open spec fn number_of(f: (u32, Seq<char>)) -> u64 {
    match seq_in_name(f.1) {
        Some(s) => s,
        None => 0,
    }
}

proof fn lemma_newest_bounds(d: Disk, cf: Seq<char>, files: FileList, i: int)
    requires
        0 <= i < files.len(),
    ensures
        newest_in(d, cf, files[i]) <= tables_newest(d, cf, files),
        number_of(files[i]) <= names_newest(files),
    decreases files.len(),
{
    if i < files.len() - 1 {
        assert(files.drop_last()[i] == files[i]);
        lemma_newest_bounds(d, cf, files.drop_last(), i);
    }
}

/// What bounds every file bounds the largest.
proof fn lemma_newest_bounded(d: Disk, cf: Seq<char>, files: FileList, a: u64, b: u64)
    requires
        forall|i: int| #![trigger files[i]]
            0 <= i < files.len() ==> newest_in(d, cf, files[i]) <= a && number_of(files[i]) <= b,
    ensures
        tables_newest(d, cf, files) <= a,
        names_newest(files) <= b,
    decreases files.len(),
{
    if files.len() > 0 {
        let less = files.drop_last();
        assert forall|i: int| #![trigger less[i]] 0 <= i < less.len() implies newest_in(
            d,
            cf,
            less[i],
        ) <= a && number_of(less[i]) <= b by {
            assert(less[i] == files[i]);
        }
        lemma_newest_bounded(d, cf, less, a, b);
        let last = files[files.len() - 1];
    }
}

/// Listing each file once changes none of the numbers that the next write and the next
/// file get.
pub proof fn law_listing_once_counts_the_same(d: Disk, cf: Seq<char>, files: FileList)
    ensures
        tables_newest(d, cf, once(files)) == tables_newest(d, cf, files),
        names_newest(once(files)) == names_newest(files),
{
    let o = once(files);
    assert forall|i: int| #![trigger files[i]] 0 <= i < files.len() implies newest_in(
        d,
        cf,
        files[i],
    ) <= tables_newest(d, cf, o) && number_of(files[i]) <= names_newest(o) by {
        let j = lemma_once_covers(files, i);
        lemma_newest_bounds(d, cf, o, j);
    }
    lemma_newest_bounded(d, cf, files, tables_newest(d, cf, o), names_newest(o));
    assert forall|j: int| #![trigger o[j]] 0 <= j < o.len() implies newest_in(d, cf, o[j])
        <= tables_newest(d, cf, files) && number_of(o[j]) <= names_newest(files) by {
        assert(o.contains(o[j]));
        lemma_once_stood(files, o[j]);
        let i = choose|i: int| 0 <= i < files.len() && files[i] == o[j];
        lemma_newest_bounds(d, cf, files, i);
    }
    lemma_newest_bounded(d, cf, o, tables_newest(d, cf, files), names_newest(files));
}

/// A database whose manifest lists files more than once, or files of families that were
/// never created, is opened with the families that were created, with what the listed
/// files of each show, and with the numbers that come after theirs.
pub proof fn law_open_reads_what_is_listed(d: Disk, cf: Seq<char>)
    requires
        families_in(d).contains(cf),
    ensures
        ({
            let es = recovered_edits(content(d, FileId::Manifest));
            let files = files_of(es, cf);
            &&& families_in(d) == families_of(es)
            &&& stored_tables(d, cf, files_in(d, cf), 0) == stored_tables(d, cf, files, 0)
            &&& tables_newest(d, cf, files_in(d, cf)) == tables_newest(d, cf, files)
            &&& names_newest(files_in(d, cf)) == names_newest(files)
        }),
{
    let es = recovered_edits(content(d, FileId::Manifest));
    lemma_recovered_edits_fit(content(d, FileId::Manifest));
    law_clean_lists_each_file_once(es);
    assert(files_in(d, cf) == once(files_of(es, cf)));
    law_listing_once_shows_the_same(d, cf, files_of(es, cf));
    law_listing_once_counts_the_same(d, cf, files_of(es, cf));
}

} // verus!
