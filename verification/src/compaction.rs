//! Merging sorted runs into one: leveled compaction.
//!
//! Files of level 0 may overlap, so that level is compacted when it has too many
//! of them. Every other level has a budget of bytes, ten times that of the level
//! above it; when it is exceeded its oldest file moves down. A tombstone may be
//! dropped only where no older version of its key can be left below.

use crate::bytes::{lemma_lex_irreflexive, lex_lt, Model};
use crate::error::EngineError;
use crate::layers::{live, only_dead, stack, without_dead, Layer, Tombstone};
use crate::memtable::{MemEntry, MemTable, Version};
use crate::sorted_map::{assoc, holds_key, keys_ascend, law_last_pair_counts, lemma_assoc_contains,
    lemma_assoc_index, pairs, SortedMap};
use crate::sstable::{open_error, SSTable};
use crate::table_format::{all_storable, block_entries, lemma_intact, max_seq_of, storable, table_entries,
    table_index, Entry};
use crate::text::{path_join, sstable_file_name, table_name};
use vstd::prelude::*;
use vstd::string::*;

verus! {

/// How many files level 0 may have.
pub const L0_MAX_FILES: usize = 4;

/// How much larger each level may be than the one above it.
pub const SIZE_RATIO: usize = 10;

/// How many bytes level 1 may have.
pub const L1_BASE_BYTES: u64 = 1024 * 1024;

/// Two runs merged: `a` is newer and hides what `b` has for the same key.
pub open spec fn merged<V: Tombstone>(
    a: Map<Seq<u8>, V::M>,
    b: Map<Seq<u8>, V::M>,
    drop_tombstones: bool,
) -> Map<Seq<u8>, V::M> {
    let all = b.union_prefer_right(a);
    if drop_tombstones {
        without_dead::<V>(all)
    } else {
        all
    }
}

/// The tombstones that are dropped where two runs are merged.
pub open spec fn dropped(newer: Layer, older: Layer, drop_tombstones: bool) -> Layer {
    if drop_tombstones {
        only_dead::<MemEntry>(older.union_prefer_right(newer))
    } else {
        Map::empty()
    }
}

/// Insert the pairs of a list into a map, in order.
pub fn insert_all<V: Model>(map: &mut SortedMap<V>, list: Vec<(Vec<u8>, V)>)
    requires
        old(map).wf(),
    ensures
        final(map).wf(),
        final(map)@ == old(map)@.union_prefer_right(assoc(pairs(list@))),
{
    let mut rest: Vec<(Vec<u8>, V)> = list;
    let ghost all = pairs(list@);
    let ghost start = map@;
    reverse(&mut rest);
    assert(all.take(0) =~= Seq::<(Seq<u8>, V::M)>::empty());
    assert(start.union_prefer_right(assoc(all.take(0))) =~= start);
    let ghost n = rest@.len();
    while rest.len() > 0
        invariant
            map.wf(),
            all.len() == n,
            rest@.len() <= n,
            forall|i: int|
                0 <= i < rest@.len() ==> ((#[trigger] rest@[i]).0@, rest@[i].1.model()) == all[n - 1
                    - i],
            map@ == start.union_prefer_right(assoc(all.take(n - rest@.len()))),
        decreases rest@.len(),
    {
        let ghost i = n - rest@.len();
        let ghost before = map@;
        match rest.pop() {
            Some((k, v)) => {
                proof {
                    let t = all.take(i + 1);
                    assert(t.drop_last() =~= all.take(i));
                    assert(t.last() == (k@, v.model()));
                    assert(start.union_prefer_right(assoc(t)) =~= before.insert(k@, v.model()));
                }
                map.insert(k, v);
            },
            None => {},
        }
    }
    assert(all.take(n as int) =~= all);
}

/// Turn a list round.
pub fn reverse<T>(v: &mut Vec<T>)
    ensures
        final(v)@ == old(v)@.reverse(),
{
    let mut from: Vec<T> = Vec::new();
    std::mem::swap(v, &mut from);
    let ghost all = from@;
    while from.len() > 0
        invariant
            from@ == all.take(from@.len() as int),
            from@.len() <= all.len(),
            v@.len() == all.len() - from@.len(),
            forall|i: int| 0 <= i < v@.len() ==> #[trigger] v@[i] == all[all.len() - 1 - i],
        decreases from@.len(),
    {
        let ghost before = from@;
        match from.pop() {
            Some(x) => {
                assert(before.drop_last() =~= all.take(from@.len() as int));
                v.push(x);
            },
            None => {},
        }
    }
    assert(v@ =~= all.reverse());
}

/// Merge two runs; where both have a key, that of `a`, which is newer, counts.
/// The result is sorted, has each key once and, with `drop_tombstones`, none of
/// the tombstones.
pub fn merge_entries<V: Tombstone>(
    a: Vec<(Vec<u8>, V)>,
    b: Vec<(Vec<u8>, V)>,
    drop_tombstones: bool,
) -> (r: Vec<(Vec<u8>, V)>)
    ensures
        keys_ascend(pairs(r@)),
        assoc(pairs(r@)) == merged::<V>(assoc(pairs(a@)), assoc(pairs(b@)), drop_tombstones),
{
    let ghost ma = assoc(pairs(a@));
    let ghost mb = assoc(pairs(b@));
    let mut map: SortedMap<V> = SortedMap::new();
    insert_all(&mut map, b);
    insert_all(&mut map, a);
    let ghost all = map@;
    assert(all =~= mb.union_prefer_right(ma));
    let list: Vec<(Vec<u8>, V)> = map.into_entries();
    if drop_tombstones {
        split_dead(list).0
    } else {
        list
    }
}

/// Take a run apart into what is no tombstone and the tombstones.
fn split_dead<V: Tombstone>(list: Vec<(Vec<u8>, V)>) -> (r: (Vec<(Vec<u8>, V)>, Vec<(Vec<u8>, V)>))
    requires
        keys_ascend(pairs(list@)),
    ensures
        keys_ascend(pairs(r.0@)),
        assoc(pairs(r.0@)) == without_dead::<V>(assoc(pairs(list@))),
        assoc(pairs(r.1@)) == only_dead::<V>(assoc(pairs(list@))),
{
    let ghost all = pairs(list@);
    let mut rest: Vec<(Vec<u8>, V)> = list;
    reverse(&mut rest);
    let mut r: SortedMap<V> = SortedMap::new();
    let mut dead: Vec<(Vec<u8>, V)> = Vec::new();
    let ghost n = rest@.len();
    assert(all.take(0) =~= Seq::<(Seq<u8>, V::M)>::empty());
    assert(r@ =~= without_dead::<V>(assoc(all.take(0))));
    assert(pairs(dead@) =~= Seq::<(Seq<u8>, V::M)>::empty());
    assert(assoc(pairs(dead@)) =~= only_dead::<V>(assoc(all.take(0))));
    while rest.len() > 0
        invariant
            keys_ascend(all),
            all.len() == n,
            rest@.len() <= n,
            forall|i: int|
                0 <= i < rest@.len() ==> ((#[trigger] rest@[i]).0@, rest@[i].1.model()) == all[n - 1
                    - i],
            r.wf(),
            r@ == without_dead::<V>(assoc(all.take(n - rest@.len()))),
            assoc(pairs(dead@)) == only_dead::<V>(assoc(all.take(n - rest@.len()))),
        decreases rest@.len(),
    {
        let ghost i = n - rest@.len();
        let ghost before = r@;
        let ghost dead_before = pairs(dead@);
        match rest.pop() {
            Some((k, v)) => {
                proof {
                    let t = all.take(i + 1);
                    assert(t.drop_last() =~= all.take(i));
                    assert(t.last() == (k@, v.model()));
                    lemma_key_is_new(all, i);
                    if V::is_dead(v.model()) {
                        assert(without_dead::<V>(assoc(t)) =~= before);
                        assert(only_dead::<V>(assoc(t)) =~= assoc(dead_before).insert(
                            k@,
                            v.model(),
                        ));
                    } else {
                        assert(without_dead::<V>(assoc(t)) =~= before.insert(k@, v.model()));
                        assert(only_dead::<V>(assoc(t)) =~= assoc(dead_before));
                    }
                }
                if v.is_tombstone() {
                    let ghost e = (k@, v.model());
                    dead.push((k, v));
                    proof {
                        assert(pairs(dead@) =~= dead_before.push(e));
                        assert(dead_before.push(e).drop_last() =~= dead_before);
                    }
                } else {
                    r.insert(k, v);
                }
            },
            None => {},
        }
    }
    assert(all.take(n as int) =~= all);
    (r.into_entries(), dead)
}

proof fn lemma_key_is_new<A>(all: Seq<(Seq<u8>, A)>, i: int)
    requires
        keys_ascend(all),
        0 <= i < all.len(),
    ensures
        !assoc(all.take(i)).contains_key(all[i].0),
{
    let t = all.take(i);
    lemma_assoc_contains(t, all[i].0);
    if assoc(t).contains_key(all[i].0) {
        let j = choose|j: int| holds_key(t, all[i].0, j);
        assert(holds_key(t, all[i].0, j));
        assert(t[j] == all[j]);
        lemma_lex_irreflexive(all[i].0);
        assert(lex_lt(all[j].0, all[i].0));
    }
}

/// Every entry of the map of storable entries is storable.
pub proof fn lemma_assoc_storable(es: Seq<Entry>, k: Seq<u8>)
    requires
        all_storable(es),
        assoc(es).contains_key(k),
    ensures
        storable((k, assoc(es)[k])),
    decreases es.len(),
{
    if es.len() > 0 {
        if es.last().0 == k {
            assert(storable(es[es.len() - 1]));
        } else {
            let less = es.drop_last();
            assert forall|i: int| 0 <= i < less.len() implies storable(#[trigger] less[i]) by {
                assert(less[i] == es[i]);
            }
            lemma_assoc_storable(less, k);
        }
    }
}

/// The entries of a sorted run are storable if all of its map are.
pub proof fn lemma_pairs_storable(es: Seq<Entry>)
    requires
        keys_ascend(es),
        forall|k: Seq<u8>| assoc(es).contains_key(k) ==> storable((k, #[trigger] assoc(es)[k])),
    ensures
        all_storable(es),
{
    assert forall|i: int| 0 <= i < es.len() implies storable(#[trigger] es[i]) by {
        lemma_assoc_index(es, i);
        assert(storable((es[i].0, assoc(es)[es[i].0])));
    }
}

/// Write a merged run to a new table file.
pub fn write_merged(name: String, entries: Vec<(Vec<u8>, MemEntry)>, level: u32) -> (t: SSTable)
    requires
        all_storable(pairs(entries@)),
    ensures
        t.wf(),
        t.name() == name@,
        t.level() == level,
        t@ == assoc(pairs(entries@)),
        !t.is_damaged(),
        t.newest() == max_seq_of(t.entries()),
{
    let ghost all = pairs(entries@);
    let mut rest: Vec<(Vec<u8>, MemEntry)> = entries;
    reverse(&mut rest);
    let mut mem: MemTable = MemTable::new();
    let ghost n = rest@.len();
    assert(all.take(0) =~= Seq::<Entry>::empty());
    while rest.len() > 0
        invariant
            all_storable(all),
            all.len() == n,
            rest@.len() <= n,
            forall|i: int|
                0 <= i < rest@.len() ==> ((#[trigger] rest@[i]).0@, rest@[i].1.model()) == all[n - 1
                    - i],
            mem.wf(),
            mem@ == assoc(all.take(n - rest@.len())),
        decreases rest@.len(),
    {
        let ghost i = n - rest@.len();
        match rest.pop() {
            Some((k, e)) => {
                proof {
                    let t = all.take(i + 1);
                    assert(t.drop_last() =~= all.take(i));
                    assert(t.last() == (k@, e.model()));
                    assert(storable(all[i]));
                }
                match e.value {
                    Some(v) => mem.put_ttl_seq(k, v, e.seq, e.expires_at),
                    None => mem.delete_seq(k, e.seq),
                }
            },
            None => {},
        }
    }
    proof {
        assert(all.take(n as int) =~= all);
        assert forall|k: Seq<u8>| mem@.contains_key(k) implies storable(
            (k, #[trigger] mem@[k]),
        ) by {
            lemma_assoc_storable(all, k);
        }
        lemma_pairs_storable(mem.pairs());
    }
    SSTable::write_from_memtable(name, &mem, level)
}

/// Whether level 0 has as many files as it may have, or more.
pub fn l0_needs_compaction(l0: &[SSTable]) -> (r: bool)
    ensures
        r == (l0@.len() >= L0_MAX_FILES),
{
    l0.len() >= L0_MAX_FILES
}

/// The path of a fresh table file.
pub fn next_sstable_path(dir: &str, level: u32, seq: u64) -> (r: String)
    ensures
        r@ == path_join(dir@, table_name(level as nat, seq as nat)),
{
    let mut r: String = dir.to_owned();
    let n: usize = dir.unicode_len();
    if n > 0 && dir.get_char(n - 1) != '/' {
        r.push('/');
    }
    let name: String = sstable_file_name(level, seq);
    r.append(name.as_str());
    assert(r@ =~= path_join(dir@, table_name(level as nat, seq as nat)));
    r
}

// ---- jobs ----------------------------------------------------------------------

/// What a file adds to a stack: its entries, or nothing if it is not a table.
pub open spec fn file_layer(data: Seq<u8>) -> Layer {
    match table_entries(data) {
        Some(es) => assoc(es),
        None => Map::empty(),
    }
}

/// What a list of files shows, the oldest first.
pub open spec fn files_layer(files: Seq<Vec<u8>>) -> Layer {
    stack(files.map_values(|f: Vec<u8>| file_layer(f@)))
}

/// A file is a table with a damaged block.
pub open spec fn file_damaged(data: Seq<u8>) -> bool {
    table_index(data) matches Some(ix) && exists|j: int|
        0 <= j < ix.len() && #[trigger] block_entries(data, j) is None
}

/// One of the files is a table with a damaged block.
pub open spec fn files_damaged(files: Seq<Vec<u8>>) -> bool {
    exists|i: int| 0 <= i < files.len() && file_damaged((#[trigger] files[i])@)
}

/// Everything in a layer can be written to a table file.
pub open spec fn layer_storable(m: Layer) -> bool {
    forall|k: Seq<u8>| m.contains_key(k) ==> storable((k, #[trigger] m[k]))
}

/// A file holds only what can be written to one.
pub proof fn lemma_file_storable(data: Seq<u8>)
    ensures
        layer_storable(file_layer(data)),
{
    if let Some(es) = table_entries(data) {
        lemma_intact(data, (table_index(data)->0).len() as int);
        assert forall|k: Seq<u8>| assoc(es).contains_key(k) implies storable(
            (k, #[trigger] assoc(es)[k]),
        ) by {
            lemma_assoc_storable(es, k);
        }
    }
}

/// Tombstones of entries are those without a value.
pub proof fn lemma_without_dead_is_live(m: Layer)
    ensures
        without_dead::<MemEntry>(m) == live(m),
{
    assert(without_dead::<MemEntry>(m) =~= live(m));
}

/// Merge the entries of a list of files, the oldest first. What cannot be
/// opened is left out; `InvalidData` where a block is damaged.
fn merge_files(files: Vec<Vec<u8>>) -> (r: Result<Vec<(Vec<u8>, MemEntry)>, EngineError>)
    ensures
        match r {
            Ok(v) => {
                &&& keys_ascend(pairs(v@))
                &&& assoc(pairs(v@)) == files_layer(files@)
                &&& all_storable(pairs(v@))
                &&& !files_damaged(files@)
            },
            Err(e) => e == EngineError::InvalidData && files_damaged(files@),
        },
{
    let ghost all = files@.map_values(|f: Vec<u8>| file_layer(f@));
    let mut rest: Vec<Vec<u8>> = files;
    reverse(&mut rest);
    let mut entries: Vec<(Vec<u8>, MemEntry)> = Vec::new();
    let ghost n = rest@.len();
    assert(all.take(0) =~= Seq::<Layer>::empty());
    assert(pairs(entries@) =~= Seq::<Entry>::empty());
    while rest.len() > 0
        invariant
            all.len() == n,
            rest@.len() <= n,
            forall|i: int|
                0 <= i < rest@.len() ==> (#[trigger] rest@[i]) == files@[n - 1 - i],
            all == files@.map_values(|f: Vec<u8>| file_layer(f@)),
            forall|i: int| 0 <= i < n - rest@.len() ==> !file_damaged((#[trigger] files@[i])@),
            keys_ascend(pairs(entries@)),
            all_storable(pairs(entries@)),
            assoc(pairs(entries@)) == stack(all.take(n - rest@.len())),
        decreases rest@.len(),
    {
        let ghost i = n - rest@.len();
        let ghost before = assoc(pairs(entries@));
        proof {
            let t = all.take(i + 1);
            assert(t.drop_last() =~= all.take(i));
            assert(t.last() == all[i]);
        }
        match rest.pop() {
            Some(data) => {
                let ghost bytes = data@;
                proof {
                    lemma_file_storable(bytes);
                    assert(layer_storable(before)) by {
                        assert forall|k: Seq<u8>| before.contains_key(k) implies storable(
                            (k, #[trigger] before[k]),
                        ) by {
                            lemma_assoc_storable(pairs(entries@), k);
                        }
                    }
                }
                assert(data == files@[i]);
                match SSTable::open(String::new(), data, 0) {
                    Ok(sst) => {
                        proof {
                            sst.lemma_wf();
                            lemma_file_damaged(&sst);
                        }
                        let found: Vec<(Vec<u8>, MemEntry)> = match sst.scan_all() {
                            Ok(v) => v,
                            Err(e) => {
                                return Err(e);
                            },
                        };
                        entries = merge_entries(found, entries, false);
                        proof {
                            assert(assoc(pairs(entries@)) == before.union_prefer_right(
                                file_layer(bytes),
                            ));
                            lemma_pairs_storable(pairs(entries@));
                        }
                    },
                    Err(_) => {
                        assert(before.union_prefer_right(file_layer(bytes)) =~= before);
                    },
                }
            },
            None => {},
        }
    }
    assert(all.take(n as int) =~= all);
    Ok(entries)
}

/// A table is damaged if its file is.
pub proof fn lemma_file_damaged(t: &SSTable)
    requires
        t.wf(),
    ensures
        t.is_damaged() == file_damaged(t.bytes()),
{
    t.lemma_wf();
    if t.is_damaged() {
        let j = choose|j: int| 0 <= j < t.index().len() && #[trigger] t.part(j) is None;
        assert(block_entries(t.bytes(), j) is None);
    }
    if file_damaged(t.bytes()) {
        let j = choose|j: int|
            0 <= j < t.index().len() && #[trigger] block_entries(t.bytes(), j) is None;
        assert(t.part(j) is None);
    }
}

/// Write a merged run unless it is empty.
fn write_if_any(entries: Vec<(Vec<u8>, MemEntry)>, level: u32, seq: u64) -> (r: Option<SSTable>)
    requires
        all_storable(pairs(entries@)),
    ensures
        match r {
            Some(t) => {
                &&& t.wf()
                &&& t.name() == table_name(level as nat, seq as nat)
                &&& t.level() == level
                &&& t@ == assoc(pairs(entries@))
                &&& t@ != Map::<Seq<u8>, Version>::empty()
                &&& !t.is_damaged()
                &&& t.newest() == max_seq_of(t.entries())
            },
            None => assoc(pairs(entries@)) == Map::<Seq<u8>, Version>::empty(),
        },
{
    if entries.len() == 0 {
        return None;
    }
    proof {
        assert(assoc(pairs(entries@)).contains_key(pairs(entries@).last().0));
    }
    Some(write_merged(sstable_file_name(level, seq), entries, level))
}

/// The result of a compaction of newer files into older ones.
pub open spec fn compacted(
    r: Option<SSTable>,
    newer: Layer,
    older: Layer,
    drop_tombstones: bool,
    level: nat,
    seq: u64,
) -> bool {
    let all = merged::<MemEntry>(newer, older, drop_tombstones);
    match r {
        Some(t) => {
            &&& t.wf()
            &&& t.name() == table_name(level, seq as nat)
            &&& t.level() == level
            &&& t@ == all
            &&& all != Map::<Seq<u8>, Version>::empty()
            &&& !t.is_damaged()
            &&& t.newest() == max_seq_of(t.entries())
        },
        None => all == Map::<Seq<u8>, Version>::empty(),
    }
}

/// What came of a merge: the table that holds the result, unless nothing was left, and
/// the tombstones that were dropped.
pub struct MergeOutcome {
    pub new_sst: Option<SSTable>,
    pub dropped: Vec<(Vec<u8>, MemEntry)>,
}

impl MergeOutcome {
    /// This is what comes of a compaction of newer files into older ones.
    pub open spec fn is_of(
        &self,
        newer: Layer,
        older: Layer,
        drop_tombstones: bool,
        level: nat,
        seq: u64,
    ) -> bool {
        &&& compacted(self.new_sst, newer, older, drop_tombstones, level, seq)
        &&& assoc(pairs(self.dropped@)) == dropped(newer, older, drop_tombstones)
    }
}

fn merge_and_write(
    newer: Vec<(Vec<u8>, MemEntry)>,
    older: Vec<(Vec<u8>, MemEntry)>,
    drop_tombstones: bool,
    level: u32,
    seq: u64,
) -> (r: MergeOutcome)
    requires
        all_storable(pairs(newer@)),
        all_storable(pairs(older@)),
    ensures
        r.is_of(
            assoc(pairs(newer@)),
            assoc(pairs(older@)),
            drop_tombstones,
            level as nat,
            seq,
        ),
{
    let ghost a = assoc(pairs(newer@));
    let ghost b = assoc(pairs(older@));
    proof {
        assert forall|k: Seq<u8>| a.contains_key(k) implies storable((k, #[trigger] a[k])) by {
            lemma_assoc_storable(pairs(newer@), k);
        }
        assert forall|k: Seq<u8>| b.contains_key(k) implies storable((k, #[trigger] b[k])) by {
            lemma_assoc_storable(pairs(older@), k);
        }
    }
    let all: Vec<(Vec<u8>, MemEntry)> = merge_entries(newer, older, false);
    let (left, dropped): (Vec<(Vec<u8>, MemEntry)>, Vec<(Vec<u8>, MemEntry)>) = if drop_tombstones {
        split_dead(all)
    } else {
        (all, Vec::new())
    };
    proof {
        if !drop_tombstones {
            assert(pairs(dropped@) =~= Seq::<Entry>::empty());
        }
        lemma_pairs_storable(pairs(left@));
    }
    MergeOutcome { new_sst: write_if_any(left, level, seq), dropped }
}

/// Merge files of level 0 and of level 1, each list the oldest first, into one
/// file of level 1. Files that cannot be opened are left out. Fails if a block of one of
/// the others is damaged.
pub fn compact_l0_to_l1(
    l0_files: Vec<Vec<u8>>,
    l1_files: Vec<Vec<u8>>,
    drop_tombstones: bool,
    seq: u64,
) -> (r: Result<MergeOutcome, EngineError>)
    ensures
        match r {
            Ok(m) => {
                &&& !files_damaged(l0_files@)
                &&& !files_damaged(l1_files@)
                &&& m.is_of(files_layer(l0_files@), files_layer(l1_files@), drop_tombstones, 1, seq)
            },
            Err(e) => e == EngineError::InvalidData && (files_damaged(l0_files@) || files_damaged(
                l1_files@,
            )),
        },
{
    let l0_entries: Vec<(Vec<u8>, MemEntry)> = match merge_files(l0_files) {
        Ok(v) => v,
        Err(e) => {
            return Err(e);
        },
    };
    let l1_entries: Vec<(Vec<u8>, MemEntry)> = match merge_files(l1_files) {
        Ok(v) => v,
        Err(e) => {
            return Err(e);
        },
    };
    Ok(merge_and_write(l0_entries, l1_entries, drop_tombstones, 1, seq))
}

/// Merge a file of `level` into files of the next level, the oldest first. Fails
/// if the file cannot be opened; of the others those that cannot be are left out. Fails
/// too if a block is damaged.
pub fn compact_level(
    level: usize,
    victim: Vec<u8>,
    next_files: Vec<Vec<u8>>,
    is_deepest: bool,
    seq: u64,
) -> (r: Result<MergeOutcome, EngineError>)
    requires
        level < u32::MAX,
    ensures
        match r {
            Ok(m) => {
                &&& table_entries(victim@) is Some
                &&& !file_damaged(victim@)
                &&& !files_damaged(next_files@)
                &&& m.is_of(
                    file_layer(victim@),
                    files_layer(next_files@),
                    is_deepest,
                    (level + 1) as nat,
                    seq,
                )
            },
            Err(e) => if table_entries(victim@) is None {
                e == open_error(victim@)
            } else {
                e == EngineError::InvalidData && (file_damaged(victim@) || files_damaged(
                    next_files@,
                ))
            },
        },
{
    match SSTable::open(String::new(), victim, level as u32) {
        Ok(sst) => {
            proof {
                sst.lemma_wf();
                lemma_file_damaged(&sst);
            }
            let new_entries: Vec<(Vec<u8>, MemEntry)> = match sst.scan_all() {
                Ok(v) => v,
                Err(e) => {
                    return Err(e);
                },
            };
            let next_entries: Vec<(Vec<u8>, MemEntry)> = match merge_files(next_files) {
                Ok(v) => v,
                Err(e) => {
                    return Err(e);
                },
            };
            Ok(merge_and_write(new_entries, next_entries, is_deepest, (level + 1) as u32, seq))
        },
        Err(e) => Err(e),
    }
}

// ---- laws ----------------------------------------------------------------------

/// Where two runs are merged, what the newer one last has of a key counts, and what the
/// older one last has of a key that the newer one lacks. It is in the result unless it is a
/// tombstone and those are dropped. The result ascends and has nothing else.
pub proof fn law_merge_lets_the_newer_count(
    a: Vec<(Vec<u8>, Option<Vec<u8>>)>,
    b: Vec<(Vec<u8>, Option<Vec<u8>>)>,
    drop_tombstones: bool,
    r: Vec<(Vec<u8>, Option<Vec<u8>>)>,
    key: Seq<u8>,
    i: int,
    j: int,
)
    requires
        call_ensures(merge_entries::<Option<Vec<u8>>>, (a, b, drop_tombstones), r),
        -1 <= i < a@.len(),
        -1 <= j < b@.len(),
        i >= 0 ==> a@[i].0@ == key,
        j >= 0 ==> b@[j].0@ == key,
        forall|n: int| i < n < a@.len() ==> (#[trigger] a@[n]).0@ != key,
        forall|n: int| j < n < b@.len() ==> (#[trigger] b@[n]).0@ != key,
    ensures
        forall|m: int, n: int|
            0 <= m < n < r@.len() ==> lex_lt((#[trigger] r@[m]).0@, (#[trigger] r@[n]).0@),
        ({
            let last = if i >= 0 {
                Some(a@[i].1)
            } else if j >= 0 {
                Some(b@[j].1)
            } else {
                None
            };
            let stays = last is Some && (!drop_tombstones || last->0 is Some);
            &&& stays ==> exists|n: int|
                0 <= n < r@.len() && (#[trigger] r@[n]).0@ == key && r@[n].1 is Some == last->0 is Some
                    && (last->0 is Some ==> r@[n].1->0@ == (last->0)->0@)
            &&& !stays ==> forall|n: int| 0 <= n < r@.len() ==> (#[trigger] r@[n]).0@ != key
        }),
{
    let x = pairs(a@);
    let y = pairs(b@);
    let z = pairs(r@);
    assert forall|n: int| i < n < x.len() implies (#[trigger] x[n]).0 != key by {
        assert(x[n].0 == a@[n].0@);
    }
    assert forall|n: int| j < n < y.len() implies (#[trigger] y[n]).0 != key by {
        assert(y[n].0 == b@[n].0@);
    }
    law_last_pair_counts(x, key, i);
    law_last_pair_counts(y, key, j);
    assert forall|m: int, n: int| 0 <= m < n < r@.len() implies lex_lt(
        (#[trigger] r@[m]).0@,
        (#[trigger] r@[n]).0@,
    ) by {
        assert(z[m].0 == r@[m].0@ && z[n].0 == r@[n].0@);
    }
    lemma_assoc_contains(z, key);
    if assoc(z).contains_key(key) {
        let n = choose|n: int| holds_key(z, key, n);
        assert(holds_key(z, key, n));
        lemma_assoc_index(z, n);
        assert(r@[n].0@ == key);
        assert(z[n].1 == r@[n].1.model());
    } else {
        assert forall|n: int| 0 <= n < r@.len() implies (#[trigger] r@[n]).0@ != key by {
            if r@[n].0@ == key {
                assert(holds_key(z, key, n));
            }
        }
    }
}

/// The same of layers: the newer one hides the older one, with tombstones dropped or not.
pub proof fn law_merged_layers(newer: Layer, older: Layer, key: Seq<u8>)
    ensures
        ({
            let all = merged::<MemEntry>(newer, older, false);
            let live = merged::<MemEntry>(newer, older, true);
            let gone = dropped(newer, older, true);
            let has = newer.contains_key(key) || older.contains_key(key);
            let last = if newer.contains_key(key) {
                newer[key]
            } else {
                older[key]
            };
            &&& all.contains_key(key) == has
            &&& has ==> all[key] == last
            &&& live.contains_key(key) == (has && last.value is Some)
            &&& live.contains_key(key) ==> live[key] == last
            &&& gone.contains_key(key) == (has && last.value is None)
            &&& gone.contains_key(key) ==> gone[key] == last
            &&& !dropped(newer, older, false).contains_key(key)
        }),
{
}

} // verus!
