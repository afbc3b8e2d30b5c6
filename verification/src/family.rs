//! One column family: its log, its memtables and its tables by level.

use crate::buffer::{keys_hit, lemma_no_tombstones, lemma_tombstone_bytes, record_bytes,
    tombstone_bytes};
use crate::bytes::{bytes_lt, copy_bytes, lemma_lex_irreflexive, lex_lt, Model};
use crate::compaction::{layer_storable, lemma_assoc_storable};
use crate::error::EngineError;
use crate::iter::{item_pairs, mem_source, overlay, sources_ascend, table_source, values_of, Cursor,
    Item};
use crate::layers::{in_range, lemma_hide_assoc, lemma_shown_union, lemma_upto_all, live, shown,
    stack, upto, visible_values, Layer};
use crate::memtable::{size_sum, MemEntry, MemTable, Version};
use crate::replay::{apply_record, range_deleted, tombstone};
use crate::sorted_map::{assoc, holds_key, keys_ascend, lemma_assoc_contains, lemma_assoc_index,
    pairs, SortedMap};
use crate::sstable::SSTable;
use crate::table_format::{storable, Entry};
use crate::wal::{fits, Wal, WalRecord};
use vstd::prelude::*;

verus! {

/// How many levels of tables there are.
pub const MAX_LEVELS: usize = 7;

/// A column family.
pub struct CfState {
    pub name: String,
    pub wal: Wal,
    pub mem: MemTable,
    pub imm: Vec<MemTable>,
    pub levels: Vec<Vec<SSTable>>,
    /// The tombstones that compactions have dropped since the family was opened: a
    /// transaction has to learn of a deletion even when nothing else is left of it.
    pub buried: SortedMap<MemEntry>,
}

/// What each table of a level shows.
pub open spec fn table_layers(files: Seq<SSTable>) -> Seq<Layer> {
    files.map_values(|t: SSTable| t@)
}

/// What a level shows, the oldest table first.
pub open spec fn level_layer(files: Seq<SSTable>) -> Layer {
    stack(table_layers(files))
}

/// What the levels from `l` on show; lower numbers are newer.
pub open spec fn levels_layer(levels: Seq<Vec<SSTable>>, l: int) -> Layer
    decreases levels.len() - l,
{
    if l < 0 || l >= levels.len() {
        Map::empty()
    } else {
        levels_layer(levels, l + 1).union_prefer_right(level_layer(levels[l]@))
    }
}

/// A search of the first `n` tables of a level for `key`, the newest first, comes to a
/// damaged block before it finds the key.
pub open spec fn level_hides(files: Seq<SSTable>, key: Seq<u8>, n: int) -> bool
    decreases n,
{
    if n <= 0 {
        false
    } else {
        let t = files[n - 1];
        t.hides(key) || (!t@.contains_key(key) && level_hides(files, key, n - 1))
    }
}

/// A search of the levels from `l` on for `key` comes to a damaged block before it finds
/// the key.
pub open spec fn levels_hide(levels: Seq<Vec<SSTable>>, key: Seq<u8>, l: int) -> bool
    decreases levels.len() - l,
{
    if l < 0 || l >= levels.len() {
        false
    } else {
        level_hides(levels[l]@, key, levels[l]@.len() as int) || (!level_layer(
            levels[l]@,
        ).contains_key(key) && levels_hide(levels, key, l + 1))
    }
}

/// What each immutable memtable shows.
pub open spec fn mem_layers(mems: Seq<MemTable>) -> Seq<Layer> {
    mems.map_values(|m: MemTable| m@)
}

/// Every table of every level is well-formed.
pub open spec fn levels_wf(levels: Seq<Vec<SSTable>>) -> bool {
    forall|l: int, i: int|
        0 <= l < levels.len() && 0 <= i < levels[l]@.len() ==> (#[trigger] levels[l]@[i]).wf()
}

/// The part of a layer between `from` and `to`.
pub open spec fn restrict(m: Layer, from: Seq<u8>, to: Seq<u8>) -> Layer {
    Map::new(|k: Seq<u8>| m.contains_key(k) && in_range(k, from, to), |k: Seq<u8>| m[k])
}

proof fn lemma_restrict_union(a: Layer, b: Layer, from: Seq<u8>, to: Seq<u8>)
    ensures
        restrict(a.union_prefer_right(b), from, to) == restrict(a, from, to).union_prefer_right(
            restrict(b, from, to),
        ),
{
    assert(restrict(a.union_prefer_right(b), from, to) =~= restrict(
        a,
        from,
        to,
    ).union_prefer_right(restrict(b, from, to)));
}

/// A source that is older than all others lies below them.
proof fn lemma_overlay_push(
    rests: Seq<Seq<(Seq<u8>, Option<Seq<u8>>)>>,
    x: Seq<(Seq<u8>, Option<Seq<u8>>)>,
    i: int,
)
    requires
        0 <= i <= rests.len(),
    ensures
        overlay(rests.push(x), i) == assoc(x).union_prefer_right(overlay(rests, i)),
    decreases rests.len() - i,
{
    let more = rests.push(x);
    if i == rests.len() {
        assert(overlay(more, i + 1) =~= Map::<Seq<u8>, Option<Seq<u8>>>::empty());
        assert(overlay(more, i) =~= assoc(x).union_prefer_right(overlay(rests, i)));
    } else {
        lemma_overlay_push(rests, x, i + 1);
        assert(more[i] == rests[i]);
        assert(overlay(more, i) =~= assoc(x).union_prefer_right(overlay(rests, i)));
    }
}

/// What a level shows of writes no later than `max_seq`.
pub open spec fn level_upto(files: Seq<SSTable>, max_seq: u64) -> Layer {
    stack(files.map_values(|t: SSTable| upto(t@, max_seq)))
}

/// What the levels from `l` on show of writes no later than `max_seq`.
pub open spec fn levels_upto(levels: Seq<Vec<SSTable>>, l: int, max_seq: u64) -> Layer
    decreases levels.len() - l,
{
    if l < 0 || l >= levels.len() {
        Map::empty()
    } else {
        levels_upto(levels, l + 1, max_seq).union_prefer_right(level_upto(levels[l]@, max_seq))
    }
}

/// The sources of a cursor as mathematical values.
pub open spec fn source_pairs(v: Seq<Vec<Item>>) -> Seq<Seq<(Seq<u8>, Option<Seq<u8>>)>> {
    v.map_values(|s: Vec<Item>| item_pairs(s@))
}

/// Insert the entries of a source that lie in a range.
fn insert_range(map: &mut SortedMap<MemEntry>, list: Vec<(Vec<u8>, MemEntry)>, from: &[u8], to: &[u8])
    requires
        old(map).wf(),
    ensures
        final(map).wf(),
        final(map)@ == old(map)@.union_prefer_right(restrict(assoc(pairs(list@)), from@, to@)),
{
    let ghost es = pairs(list@);
    let ghost start = map@;
    let mut i: usize = 0;
    assert(es.take(0) =~= Seq::<Entry>::empty());
    assert(start.union_prefer_right(restrict(assoc(es.take(0)), from@, to@)) =~= start);
    while i < list.len()
        invariant
            i <= list@.len(),
            es == pairs(list@),
            map.wf(),
            map@ == start.union_prefer_right(restrict(assoc(es.take(i as int)), from@, to@)),
        decreases list@.len() - i,
    {
        let key: &Vec<u8> = &list[i].0;
        let ghost e = es[i as int];
        let ghost before = map@;
        proof {
            let t = es.take(i + 1);
            assert(t.drop_last() =~= es.take(i as int));
            assert(t.last() == e);
            if in_range(e.0, from@, to@) {
                assert(start.union_prefer_right(restrict(assoc(t), from@, to@)) =~= before.insert(
                    e.0,
                    e.1,
                ));
            } else {
                assert(start.union_prefer_right(restrict(assoc(t), from@, to@)) =~= before);
            }
        }
        if !bytes_lt(key.as_slice(), from) && bytes_lt(key.as_slice(), to) {
            map.insert(copy_bytes(key.as_slice()), list[i].1.copy());
        }
        i = i + 1;
    }
    assert(es.take(i as int) =~= es);
}

/// The entries of a memtable.
fn mem_entries(mem: &MemTable) -> (r: Vec<(Vec<u8>, MemEntry)>)
    ensures
        pairs(r@) == mem.pairs(),
{
    let mut r: Vec<(Vec<u8>, MemEntry)> = Vec::new();
    let n: usize = mem.len();
    let mut i: usize = 0;
    while i < n
        invariant
            i <= n,
            n == mem.pairs().len(),
            r@.len() == i,
            forall|j: int|
                0 <= j < i ==> ((#[trigger] r@[j]).0@, r@[j].1.model()) == mem.pairs()[j],
        decreases n - i,
    {
        r.push((copy_bytes(mem.key_at(i).as_slice()), mem.entry_at(i).copy()));
        i = i + 1;
    }
    assert(pairs(r@) =~= mem.pairs());
    r
}

/// A layer of nothing but tombstones.
pub open spec fn all_dead(m: Layer) -> bool {
    forall|k: Seq<u8>| m.contains_key(k) ==> (#[trigger] m[k]).value is None
}

impl CfState {
    /// What the tables show.
    pub open spec fn tables(&self) -> Layer {
        levels_layer(self.levels@, 0)
    }

    /// What was last written to each key.
    pub open spec fn contents(&self) -> Layer {
        self.tables().union_prefer_right(stack(mem_layers(self.imm@))).union_prefer_right(self.mem@)
    }

    /// A search for `key` comes to a damaged block before it finds the key: what was last
    /// written to it cannot be told.
    pub open spec fn hides(&self, key: Seq<u8>) -> bool {
        !self.mem@.contains_key(key) && levels_hide(self.levels@, key, 0)
    }

    /// Some block of a table is damaged.
    pub open spec fn is_damaged(&self) -> bool {
        exists|l: int, i: int|
            0 <= l < self.levels@.len() && 0 <= i < self.levels@[l]@.len() && (
            #[trigger] self.levels@[l]@[i]).is_damaged()
    }

    /// What was last written to each key, with the deletions whose tombstones were
    /// dropped.
    pub open spec fn history(&self) -> Layer {
        self.buried@.union_prefer_right(self.contents())
    }

    /// What was last written to each key no later than `max_seq`.
    pub open spec fn contents_upto(&self, max_seq: u64) -> Layer {
        levels_upto(self.levels@, 0, max_seq).union_prefer_right(
            stack(self.imm@.map_values(|m: MemTable| upto(m@, max_seq))),
        ).union_prefer_right(upto(self.mem@, max_seq))
    }

    /// There are all levels, every table and memtable is well-formed, and what
    /// is in memory can be written to a table. Flushing is done at once, so no
    /// immutable memtable waits for it. Only tombstones are buried.
    pub open spec fn wf(&self) -> bool {
        &&& self.levels@.len() == MAX_LEVELS
        &&& levels_wf(self.levels@)
        &&& self.mem.wf()
        &&& layer_storable(self.mem@)
        &&& self.imm@.len() == 0
        &&& self.buried.wf()
        &&& all_dead(self.buried@)
    }

    /// An empty family with a log.
    pub fn new(name: String, wal: Wal) -> (r: CfState)
        ensures
            r.wf(),
            r.name == name,
            r.wal == wal,
            r.mem@ == Map::<Seq<u8>, Version>::empty(),
            r.mem.size() == 0,
            forall|l: int| 0 <= l < MAX_LEVELS ==> (#[trigger] r.levels@[l])@.len() == 0,
            r.buried@ == Map::<Seq<u8>, Version>::empty(),
    {
        let mut levels: Vec<Vec<SSTable>> = Vec::new();
        let mut i: usize = 0;
        while i < MAX_LEVELS
            invariant
                i <= MAX_LEVELS,
                levels@.len() == i,
                forall|l: int| 0 <= l < i ==> (#[trigger] levels@[l])@.len() == 0,
            decreases MAX_LEVELS - i,
        {
            levels.push(Vec::new());
            i = i + 1;
        }
        CfState {
            name,
            wal,
            mem: MemTable::new(),
            imm: Vec::new(),
            levels,
            buried: SortedMap::new(),
        }
    }

    /// What was last written to `key`; `InvalidData` where a damaged block is in the way.
    pub fn lookup(&self, key: &[u8]) -> (r: Result<Option<MemEntry>, EngineError>)
        requires
            self.wf(),
        ensures
            match r {
                Ok(Some(e)) => !self.hides(key@) && self.contents().contains_key(key@)
                    && e.model() == self.contents()[key@],
                Ok(None) => !self.hides(key@) && !self.contents().contains_key(key@),
                Err(e) => e == EngineError::InvalidData && self.hides(key@),
            },
    {
        match self.mem.entry(key) {
            Some(e) => {
                return Ok(Some(e.copy()));
            },
            None => {},
        }
        let ghost imm = mem_layers(self.imm@);
        let mut i: usize = self.imm.len();
        assert(imm.take(imm.len() as int) =~= imm);
        while i > 0
            invariant
                self.wf(),
                i <= self.imm@.len(),
            decreases i,
        {
            i = i - 1;
            match self.imm[i].entry(key) {
                Some(e) => {
                    return Ok(Some(e.copy()));
                },
                None => {},
            }
        }
        assert(imm =~= Seq::<Layer>::empty());
        let mut l: usize = 0;
        while l < self.levels.len()
            invariant
                self.wf(),
                l <= self.levels@.len(),
                imm == mem_layers(self.imm@),
                imm == Seq::<Layer>::empty(),
                !self.mem@.contains_key(key@),
                self.hides(key@) == levels_hide(self.levels@, key@, l as int),
                self.contents().contains_key(key@) == levels_layer(
                    self.levels@,
                    l as int,
                ).contains_key(key@),
                self.contents().contains_key(key@) ==> self.contents()[key@] == levels_layer(
                    self.levels@,
                    l as int,
                )[key@],
            decreases self.levels@.len() - l,
        {
            let files: &Vec<SSTable> = &self.levels[l];
            let ghost layers = table_layers(files@);
            let ghost below = levels_layer(self.levels@, l + 1);
            let mut i: usize = files.len();
            assert(layers.take(layers.len() as int) =~= layers);
            while i > 0
                invariant
                    self.wf(),
                    l < self.levels@.len(),
                    files@ == self.levels@[l as int]@,
                    i <= files@.len(),
                    layers == table_layers(files@),
                    self.hides(key@) == (level_hides(files@, key@, i as int) || (!stack(
                        layers.take(i as int),
                    ).contains_key(key@) && levels_hide(self.levels@, key@, l + 1))),
                    self.contents().contains_key(key@) == below.union_prefer_right(
                        stack(layers.take(i as int)),
                    ).contains_key(key@),
                    self.contents().contains_key(key@) ==> self.contents()[key@]
                        == below.union_prefer_right(stack(layers.take(i as int)))[key@],
                decreases i,
            {
                i = i - 1;
                proof {
                    let t = layers.take(i + 1);
                    assert(t.drop_last() =~= layers.take(i as int));
                    assert(t.last() == files@[i as int]@);
                    assert(self.levels@[l as int]@[i as int].wf());
                }
                match files[i].entry(key) {
                    Ok(Some(e)) => {
                        return Ok(Some(e));
                    },
                    Ok(None) => {},
                    Err(e) => {
                        return Err(e);
                    },
                }
            }
            assert(layers.take(0) =~= Seq::<Layer>::empty());
            l = l + 1;
        }
        Ok(None)
    }

    /// What was last written to `key`, also where that was a deletion whose tombstone
    /// was dropped; `InvalidData` where a damaged block is in the way.
    pub fn last_write(&self, key: &[u8]) -> (r: Result<Option<MemEntry>, EngineError>)
        requires
            self.wf(),
        ensures
            match r {
                Ok(Some(e)) => !self.hides(key@) && self.history().contains_key(key@)
                    && e.model() == self.history()[key@],
                Ok(None) => !self.hides(key@) && !self.history().contains_key(key@),
                Err(e) => e == EngineError::InvalidData && self.hides(key@),
            },
    {
        match self.lookup(key) {
            Ok(Some(e)) => Ok(Some(e)),
            Ok(None) => match self.buried.get(key) {
                Some(e) => Ok(Some(e.copy())),
                None => Ok(None),
            },
            Err(e) => Err(e),
        }
    }

    /// Whether some block of a table is damaged.
    pub fn check_damage(&self) -> (r: bool)
        requires
            self.wf(),
        ensures
            r == self.is_damaged(),
    {
        let mut l: usize = 0;
        while l < self.levels.len()
            invariant
                self.wf(),
                l <= self.levels@.len(),
                forall|a: int, i: int|
                    0 <= a < l && 0 <= i < self.levels@[a]@.len() ==> !(
                    #[trigger] self.levels@[a]@[i]).is_damaged(),
            decreases self.levels@.len() - l,
        {
            let files: &Vec<SSTable> = &self.levels[l];
            let mut i: usize = 0;
            while i < files.len()
                invariant
                    self.wf(),
                    l < self.levels@.len(),
                    files@ == self.levels@[l as int]@,
                    i <= files@.len(),
                    forall|k: int|
                        0 <= k < i ==> !(#[trigger] self.levels@[l as int]@[k]).is_damaged(),
                decreases files@.len() - i,
            {
                assert(self.levels@[l as int]@[i as int].wf());
                if files[i].check_damage() {
                    assert(self.levels@[l as int]@[i as int].is_damaged());
                    return true;
                }
                i = i + 1;
            }
            l = l + 1;
        }
        false
    }

    /// What was last written to the keys between `from` and `to`.
    pub fn range_map(&self, from: &[u8], to: &[u8]) -> (r: SortedMap<MemEntry>)
        requires
            self.wf(),
        ensures
            r.wf(),
            r@ == restrict(self.contents(), from@, to@),
    {
        let mut map: SortedMap<MemEntry> = SortedMap::new();
        let mut l: usize = self.levels.len();
        assert(map@ =~= restrict(levels_layer(self.levels@, l as int), from@, to@));
        while l > 0
            invariant
                self.wf(),
                l <= self.levels@.len(),
                map.wf(),
                map@ == restrict(levels_layer(self.levels@, l as int), from@, to@),
            decreases l,
        {
            l = l - 1;
            let files: &Vec<SSTable> = &self.levels[l];
            let ghost layers = table_layers(files@);
            let ghost below = levels_layer(self.levels@, l + 1);
            let mut i: usize = 0;
            assert(layers.take(0) =~= Seq::<Layer>::empty());
            assert(below.union_prefer_right(stack(layers.take(0))) =~= below);
            while i < files.len()
                invariant
                    self.wf(),
                    l < self.levels@.len(),
                    files@ == self.levels@[l as int]@,
                    i <= files@.len(),
                    layers == table_layers(files@),
                    map.wf(),
                    map@ == restrict(
                        below.union_prefer_right(stack(layers.take(i as int))),
                        from@,
                        to@,
                    ),
                decreases files@.len() - i,
            {
                proof {
                    let t = layers.take(i + 1);
                    assert(t.drop_last() =~= layers.take(i as int));
                    assert(t.last() == files@[i as int]@);
                    assert(self.levels@[l as int]@[i as int].wf());
                    lemma_restrict_union(
                        below.union_prefer_right(stack(layers.take(i as int))),
                        files@[i as int]@,
                        from@,
                        to@,
                    );
                    lemma_hide_assoc(below, stack(layers.take(i as int)), files@[i as int]@);
                }
                insert_range(&mut map, files[i].scan_intact(), from, to);
                i = i + 1;
            }
            assert(layers.take(i as int) =~= layers);
        }
        let mut i: usize = 0;
        while i < self.imm.len()
            invariant
                self.wf(),
                i <= self.imm@.len(),
                map.wf(),
                map@ == restrict(self.tables(), from@, to@),
            decreases self.imm@.len() - i,
        {
            insert_range(&mut map, mem_entries(&self.imm[i]), from, to);
            i = i + 1;
        }
        insert_range(&mut map, mem_entries(&self.mem), from, to);
        proof {
            let imm = mem_layers(self.imm@);
            assert(imm =~= Seq::<Layer>::empty());
            assert(self.tables().union_prefer_right(stack(imm)) =~= self.tables());
            lemma_restrict_union(self.tables(), self.mem@, from@, to@);
        }
        map
    }

    /// The sources of a cursor over this family, the newest first: what was
    /// written no later than `max_seq`, as a reader sees it whose clock shows
    /// `now`.
    pub fn sources(&self, max_seq: u64, now: u64) -> (r: Vec<Vec<Item>>)
        requires
            self.wf(),
            !self.is_damaged(),
        ensures
            sources_ascend(r@),
            overlay(source_pairs(r@), 0) == shown(self.contents_upto(max_seq), now),
    {
        let mut r: Vec<Vec<Item>> = Vec::new();
        r.push(mem_source(&self.mem, max_seq, now));
        let ghost top = upto(self.mem@, max_seq);
        proof {
            let one = source_pairs(r@);
            assert(one =~= Seq::<Seq<(Seq<u8>, Option<Seq<u8>>)>>::empty().push(
                item_pairs(r@[0]@),
            ));
            assert(overlay(one, 1) =~= Map::<Seq<u8>, Option<Seq<u8>>>::empty());
            assert(overlay(one, 0) =~= shown(top, now));
        }
        let mut i: usize = self.imm.len();
        while i > 0
            invariant
                self.wf(),
                i <= self.imm@.len(),
                sources_ascend(r@),
                overlay(source_pairs(r@), 0) == shown(top, now),
            decreases i,
        {
            i = i - 1;
            r.push(mem_source(&self.imm[i], max_seq, now));
        }
        let mut l: usize = 0;
        let ghost mut seen = top;
        let ghost all = self.contents_upto(max_seq);
        proof {
            let imm = self.imm@.map_values(|m: MemTable| upto(m@, max_seq));
            assert(imm =~= Seq::<Layer>::empty());
            assert(levels_upto(self.levels@, 0, max_seq).union_prefer_right(stack(imm))
                =~= levels_upto(self.levels@, 0, max_seq));
        }
        while l < self.levels.len()
            invariant
                self.wf(),
                !self.is_damaged(),
                l <= self.levels@.len(),
                sources_ascend(r@),
                overlay(source_pairs(r@), 0) == shown(seen, now),
                all == levels_upto(self.levels@, l as int, max_seq).union_prefer_right(seen),
            decreases self.levels@.len() - l,
        {
            let files: &Vec<SSTable> = &self.levels[l];
            let ghost layers = files@.map_values(|t: SSTable| upto(t@, max_seq));
            let ghost below = levels_upto(self.levels@, l + 1, max_seq);
            let mut i: usize = files.len();
            proof {
                assert(layers.take(layers.len() as int) =~= layers);
                lemma_hide_assoc(below, stack(layers), seen);
            }
            while i > 0
                invariant
                    self.wf(),
                    !self.is_damaged(),
                    l < self.levels@.len(),
                    files@ == self.levels@[l as int]@,
                    i <= files@.len(),
                    layers == files@.map_values(|t: SSTable| upto(t@, max_seq)),
                    sources_ascend(r@),
                    overlay(source_pairs(r@), 0) == shown(seen, now),
                    all == below.union_prefer_right(
                        stack(layers.take(i as int)).union_prefer_right(seen),
                    ),
                decreases i,
            {
                i = i - 1;
                let ghost before = r@;
                proof {
                    let t = layers.take(i + 1);
                    assert(t.drop_last() =~= layers.take(i as int));
                    assert(t.last() == upto(files@[i as int]@, max_seq));
                    assert(self.levels@[l as int]@[i as int].wf());
                }
                let src: Vec<Item> = table_source(&files[i], max_seq, now);
                let ghost x = item_pairs(src@);
                r.push(src);
                proof {
                    let layer = upto(files@[i as int]@, max_seq);
                    assert(source_pairs(r@) =~= source_pairs(before).push(x));
                    lemma_overlay_push(source_pairs(before), x, 0);
                    lemma_shown_union(layer, seen, now);
                    lemma_hide_assoc(stack(layers.take(i as int)), layer, seen);
                    seen = layer.union_prefer_right(seen);
                    assert forall|j: int| 0 <= j < r@.len() implies keys_ascend(
                        item_pairs((#[trigger] r@[j])@),
                    ) by {
                        if j < before.len() {
                            assert(r@[j] == before[j]);
                        }
                    }
                }
            }
            proof {
                assert(layers.take(0) =~= Seq::<Layer>::empty());
                assert(Map::<Seq<u8>, Version>::empty().union_prefer_right(seen) =~= seen);
            }
            l = l + 1;
        }
        proof {
            assert(Map::<Seq<u8>, Version>::empty().union_prefer_right(seen) =~= seen);
        }
        r
    }

    /// Apply a logged record to the memtable.
    pub fn apply(&mut self, rec: WalRecord)
        requires
            old(self).wf(),
            fits(rec@),
        ensures
            final(self).wf(),
            final(self).mem@ == apply_record(old(self).mem@, old(self).tables(), rec@),
            final(self).mem.size() == size_sum(
                old(self).mem.size(),
                record_bytes(old(self).contents(), rec@),
            ),
            final(self).name == old(self).name,
            final(self).wal == old(self).wal,
            final(self).imm == old(self).imm,
            final(self).levels == old(self).levels,
            final(self).buried == old(self).buried,
    {
        let ghost before = self.mem@;
        let ghost base = self.tables();
        match rec {
            WalRecord::Put { key, seq, value } => {
                self.mem.put_seq(key, value, seq);
            },
            WalRecord::PutTtl { key, seq, value, expires_at } => {
                self.mem.put_ttl_seq(key, value, seq, expires_at);
            },
            WalRecord::Delete { key, seq } => {
                self.mem.delete_seq(key, seq);
            },
            WalRecord::DeleteRange { from, to, seq } => {
                self.delete_range(from, to, seq);
            },
        }
    }

    /// Write a tombstone for each key between `from` and `to` that has a value.
    fn delete_range(&mut self, from: Vec<u8>, to: Vec<u8>, seq: u64)
        requires
            old(self).wf(),
        ensures
            final(self).wf(),
            final(self).mem@ == range_deleted(old(self).mem@, old(self).tables(), from@, to@, seq),
            final(self).mem.size() == size_sum(
                old(self).mem.size(),
                tombstone_bytes(keys_hit(old(self).contents(), from@, to@)),
            ),
            final(self).name == old(self).name,
            final(self).wal == old(self).wal,
            final(self).imm == old(self).imm,
            final(self).levels == old(self).levels,
            final(self).buried == old(self).buried,
    {
        let ghost before = self.mem@;
        let ghost base = self.tables();
        let ghost all = self.contents();
        let hit: SortedMap<MemEntry> = self.range_map(from.as_slice(), to.as_slice());
        let ghost es = hit.pairs();
        let ghost size = self.mem.size();
        let ghost mut done = Set::<Seq<u8>>::empty();
        proof {
            lemma_contents(self);
            lemma_no_tombstones(done);
            self.mem.lemma_size();
        }
        let n: usize = hit.len();
        let mut j: usize = 0;
        while j < n
            invariant
                j <= n,
                n == es.len(),
                done.finite(),
                forall|k: Seq<u8>| #[trigger] done.contains(k) <==> tombed(es, j as int, k),
                self.mem.size() == size_sum(size, tombstone_bytes(done)),
                es == hit.pairs(),
                hit.wf(),
                hit@ == restrict(all, from@, to@),
                all == base.union_prefer_right(before),
                layer_storable(all),
                self.mem.wf(),
                layer_storable(self.mem@),
                self.name == old(self).name,
                self.wal == old(self).wal,
                self.imm == old(self).imm,
                self.levels == old(self).levels,
                self.buried == old(self).buried,
                forall|k: Seq<u8>|
                    #[trigger] self.mem@.contains_key(k) <==> before.contains_key(k) || tombed(
                        es,
                        j as int,
                        k,
                    ),
                forall|k: Seq<u8>|
                    self.mem@.contains_key(k) ==> #[trigger] self.mem@[k] == (if tombed(
                        es,
                        j as int,
                        k,
                    ) {
                        tombstone(seq)
                    } else {
                        before[k]
                    }),
            decreases n - j,
        {
            let ghost m = self.mem@;
            let ghost key = es[j as int].0;
            proof {
                lemma_assoc_index(es, j as int);
            }
            if hit.value_at(j).value.is_some() {
                let k: Vec<u8> = copy_bytes(hit.key_at(j).as_slice());
                self.mem.delete_seq(k, seq);
                proof {
                    assert(all.contains_key(key));
                    assert(storable((key, all[key])));
                    assert(self.mem@ == m.insert(key, tombstone(seq)));
                    assert(tombed_at(es, j as int, key));
                    if done.contains(key) {
                        let i = choose|i: int| i < j && tombed_at(es, i, key);
                        assert(tombed_at(es, i, key));
                        lemma_lex_irreflexive(key);
                        assert(lex_lt(es[i].0, es[j as int].0));
                    }
                    lemma_tombstone_bytes(done.insert(key), key);
                    assert(done.insert(key).remove(key) =~= done);
                    done = done.insert(key);
                }
            }
            proof {
                assert forall|k: Seq<u8>| #[trigger] tombed(es, j + 1, k) == (tombed(
                    es,
                    j as int,
                    k,
                ) || tombed_at(es, j as int, k)) by {
                    lemma_tombed_step(es, j as int, k);
                }
            }
            j = j + 1;
        }
        proof {
            let want = range_deleted(before, base, from@, to@, seq);
            let hits = live(base.union_prefer_right(before));
            assert forall|k: Seq<u8>| #[trigger] tombed(es, n as int, k) == (in_range(k, from@, to@)
                && hits.contains_key(k)) by {
                lemma_tombed_all(es, k);
            }
            assert forall|k: Seq<u8>| #[trigger] self.mem@.contains_key(k) == want.contains_key(k)
                && (self.mem@.contains_key(k) ==> self.mem@[k] == want[k]) by {
                assert(tombed(es, n as int, k) == (in_range(k, from@, to@) && hits.contains_key(k)));
            }
            assert(self.mem@ =~= want);
            assert(done =~= keys_hit(all, from@, to@)) by {
                assert forall|k: Seq<u8>| done.contains(k) == keys_hit(all, from@, to@).contains(k) by {
                    assert(tombed(es, n as int, k) == (in_range(k, from@, to@) && hits.contains_key(k)));
                }
            }
        }
    }

    /// Iterate over what was written no later than `max_seq`.
    pub fn cursor(&self, max_seq: u64, now: u64) -> (r: Cursor)
        requires
            self.wf(),
            !self.is_damaged(),
        ensures
            r.wf(),
            r@ == visible_values(self.contents_upto(max_seq), now),
    {
        let sources: Vec<Vec<Item>> = self.sources(max_seq, now);
        proof {
            assert(source_pairs(sources@) =~= sources@.map_values(
                |s: Vec<Item>| item_pairs(s@),
            ));
            assert(values_of(shown(self.contents_upto(max_seq), now)) =~= visible_values(
                self.contents_upto(max_seq),
                now,
            ));
        }
        Cursor::new(sources)
    }
}

/// The entry at position `i` has the key `k` and a value.
spec fn tombed_at(es: Seq<Entry>, i: int, k: Seq<u8>) -> bool {
    0 <= i < es.len() && es[i].0 == k && es[i].1.value is Some
}

/// One of the first `n` entries has the key `k` and a value.
spec fn tombed(es: Seq<Entry>, n: int, k: Seq<u8>) -> bool {
    exists|i: int| i < n && tombed_at(es, i, k)
}

proof fn lemma_tombed_step(es: Seq<Entry>, j: int, k: Seq<u8>)
    ensures
        tombed(es, j + 1, k) == (tombed(es, j, k) || tombed_at(es, j, k)),
{
    if tombed(es, j + 1, k) {
        let i = choose|i: int| i < j + 1 && tombed_at(es, i, k);
        assert(tombed_at(es, i, k));
        if i < j {
            assert(tombed(es, j, k));
        }
    }
    if tombed(es, j, k) {
        let i = choose|i: int| i < j && tombed_at(es, i, k);
        assert(tombed_at(es, i, k));
    }
}

proof fn lemma_tombed_all(es: Seq<Entry>, k: Seq<u8>)
    requires
        keys_ascend(es),
    ensures
        tombed(es, es.len() as int, k) == (assoc(es).contains_key(k) && assoc(es)[k].value is Some),
{
    if tombed(es, es.len() as int, k) {
        let i = choose|i: int| i < es.len() && tombed_at(es, i, k);
        assert(tombed_at(es, i, k));
        lemma_assoc_index(es, i);
    }
    if assoc(es).contains_key(k) && assoc(es)[k].value is Some {
        lemma_assoc_contains(es, k);
        let i = choose|i: int| holds_key(es, k, i);
        assert(holds_key(es, k, i));
        lemma_assoc_index(es, i);
        assert(tombed_at(es, i, k));
    }
}

/// What a family holds, without immutable memtables; all of it can be written to
/// a table.
pub proof fn lemma_contents(cf: &CfState)
    requires
        cf.wf(),
    ensures
        cf.contents() == cf.tables().union_prefer_right(cf.mem@),
        layer_storable(cf.tables()),
        layer_storable(cf.contents()),
{
    assert(mem_layers(cf.imm@) =~= Seq::<Layer>::empty());
    assert(cf.tables().union_prefer_right(stack(mem_layers(cf.imm@))) =~= cf.tables());
    lemma_levels_storable(cf.levels@, 0);
}

proof fn lemma_level_storable(files: Seq<SSTable>)
    requires
        forall|i: int| 0 <= i < files.len() ==> (#[trigger] files[i]).wf(),
    ensures
        layer_storable(level_layer(files)),
    decreases files.len(),
{
    if files.len() > 0 {
        let less = files.drop_last();
        assert forall|i: int| 0 <= i < less.len() implies (#[trigger] less[i]).wf() by {
            assert(less[i] == files[i]);
        }
        lemma_level_storable(less);
        assert(table_layers(files).drop_last() =~= table_layers(less));
        let t = files[files.len() - 1];
        t.lemma_wf();
        assert forall|k: Seq<u8>| t@.contains_key(k) implies storable((k, #[trigger] t@[k])) by {
            lemma_assoc_storable(t.entries(), k);
        }
    }
}

proof fn lemma_levels_storable(levels: Seq<Vec<SSTable>>, l: int)
    requires
        levels_wf(levels),
        0 <= l <= levels.len(),
    ensures
        layer_storable(levels_layer(levels, l)),
    decreases levels.len() - l,
{
    if l < levels.len() {
        lemma_levels_storable(levels, l + 1);
        assert forall|i: int| 0 <= i < levels[l]@.len() implies (#[trigger] levels[l]@[i]).wf() by {}
        lemma_level_storable(levels[l]@);
    }
}

/// All writes of a layer are no later than `max_seq`.
pub open spec fn written_by(m: Layer, max_seq: u64) -> bool {
    forall|k: Seq<u8>| m.contains_key(k) ==> (#[trigger] m[k]).seq <= max_seq
}

/// All writes of all tables are no later than `max_seq`.
pub open spec fn levels_written_by(levels: Seq<Vec<SSTable>>, max_seq: u64) -> bool {
    forall|l: int, i: int|
        0 <= l < levels.len() && 0 <= i < levels[l]@.len() ==> (
        #[trigger] levels[l]@[i]).newest() <= max_seq
}

/// What a table shows is no later than its largest sequence number.
pub proof fn lemma_table_by(t: SSTable, max_seq: u64)
    requires
        t.wf(),
        t.newest() <= max_seq,
    ensures
        written_by(t@, max_seq),
{
    t.lemma_wf();
    let es = t.entries();
    assert forall|k: Seq<u8>| t@.contains_key(k) implies (#[trigger] t@[k]).seq <= max_seq by {
        lemma_assoc_contains(es, k);
        let i = choose|i: int| holds_key(es, k, i);
        assert(holds_key(es, k, i));
        lemma_assoc_index(es, i);
        assert(es[i].1.seq <= t.newest());
    }
}

proof fn lemma_level_upto(files: Seq<SSTable>, max_seq: u64)
    requires
        forall|i: int| 0 <= i < files.len() ==> written_by((#[trigger] files[i])@, max_seq),
    ensures
        level_upto(files, max_seq) == level_layer(files),
{
    let a = files.map_values(|t: SSTable| upto(t@, max_seq));
    let b = table_layers(files);
    assert forall|i: int| 0 <= i < a.len() implies a[i] == b[i] by {
        assert(written_by(files[i]@, max_seq));
        lemma_upto_all(files[i]@, max_seq);
    }
    assert(a =~= b);
}

/// Levels that were written no later than `max_seq` show the same up to it.
pub proof fn lemma_levels_upto(levels: Seq<Vec<SSTable>>, l: int, max_seq: u64)
    requires
        levels_wf(levels),
        levels_written_by(levels, max_seq),
        0 <= l <= levels.len(),
    ensures
        levels_upto(levels, l, max_seq) == levels_layer(levels, l),
    decreases levels.len() - l,
{
    if l < levels.len() {
        lemma_levels_upto(levels, l + 1, max_seq);
        assert forall|i: int| 0 <= i < levels[l]@.len() implies written_by(
            (#[trigger] levels[l]@[i])@,
            max_seq,
        ) by {
            lemma_table_by(levels[l]@[i], max_seq);
        }
        lemma_level_upto(levels[l]@, max_seq);
    }
}

/// Where every write is early enough, nothing is left out.
pub proof fn lemma_contents_upto(cf: &CfState, max_seq: u64)
    requires
        cf.wf(),
        levels_written_by(cf.levels@, max_seq),
        written_by(cf.mem@, max_seq),
    ensures
        cf.contents_upto(max_seq) == cf.contents(),
{
    lemma_levels_upto(cf.levels@, 0, max_seq);
    lemma_upto_all(cf.mem@, max_seq);
    assert(cf.imm@.map_values(|m: MemTable| upto(m@, max_seq)) =~= mem_layers(cf.imm@));
}

// ---- laws ----------------------------------------------------------------------

/// A search of a level is stopped by a damaged block only where it comes to one: not in a
/// table behind one that has the key, and not where no table hides it.
pub proof fn law_what_hides_in_a_level(files: Seq<SSTable>, key: Seq<u8>, n: int, i: int)
    requires
        0 <= n <= files.len(),
        -1 <= i < n,
        forall|m: int| i < m < n ==> !(#[trigger] files[m]).hides(key),
    ensures
        i < 0 ==> !level_hides(files, key, n),
        i >= 0 && files[i]@.contains_key(key) && !files[i].hides(key) ==> !level_hides(
            files,
            key,
            n,
        ),
        i >= 0 && files[i].hides(key) && (forall|m: int|
            i < m < n ==> !(#[trigger] files[m])@.contains_key(key)) ==> level_hides(
            files,
            key,
            n,
        ),
    decreases n,
{
    if n > 0 {
        if i < n - 1 {
            assert(!files[n - 1].hides(key));
            law_what_hides_in_a_level(files, key, n - 1, i);
        }
    }
}

/// What waits in memory is never hidden, and a family without a damaged table hides nothing
/// and is not damaged.
pub proof fn law_what_hides_in_a_family(cf: &CfState, key: Seq<u8>)
    ensures
        cf.mem@.contains_key(key) ==> !cf.hides(key),
        (forall|l: int, i: int|
            0 <= l < cf.levels@.len() && 0 <= i < cf.levels@[l]@.len() ==> !(
            #[trigger] cf.levels@[l]@[i]).is_damaged()) ==> !cf.is_damaged(),
        (exists|l: int, i: int|
            0 <= l < cf.levels@.len() && 0 <= i < cf.levels@[l]@.len() && (
            #[trigger] cf.levels@[l]@[i]).is_damaged()) ==> cf.is_damaged(),
{
}

/// Of the tables of a level the newest that has a key counts.
pub proof fn law_newest_table_counts(files: Seq<SSTable>, key: Seq<u8>, i: int)
    requires
        -1 <= i < files.len(),
        i >= 0 ==> files[i]@.contains_key(key),
        forall|j: int| i < j < files.len() ==> !(#[trigger] files[j])@.contains_key(key),
    ensures
        level_layer(files).contains_key(key) == (i >= 0),
        i >= 0 ==> level_layer(files)[key] == files[i]@[key],
    decreases files.len(),
{
    let layers = table_layers(files);
    if files.len() > 0 {
        let less = files.drop_last();
        assert(layers.drop_last() =~= table_layers(less));
        assert(layers.last() == files.last()@);
        if i < files.len() - 1 {
            assert(!files[files.len() - 1]@.contains_key(key));
            assert forall|j: int| i < j < less.len() implies !(
            #[trigger] less[j])@.contains_key(key) by {
                assert(less[j] == files[j]);
            }
            law_newest_table_counts(less, key, i);
        }
    } else {
        assert(layers =~= Seq::<Layer>::empty());
    }
}

/// Of the levels the first that has a key counts, and what waits in memory counts before all
/// of them.
pub proof fn law_first_level_counts(cf: &CfState, key: Seq<u8>, l: int)
    requires
        0 <= l <= cf.levels@.len(),
        cf.imm@.len() == 0,
        forall|m: int| 0 <= m < l ==> !level_layer((#[trigger] cf.levels@[m])@).contains_key(key),
        l < cf.levels@.len() ==> level_layer(cf.levels@[l]@).contains_key(key),
    ensures
        cf.mem@.contains_key(key) ==> cf.contents().contains_key(key) && cf.contents()[key]
            == cf.mem@[key],
        !cf.mem@.contains_key(key) && l < cf.levels@.len() ==> cf.contents().contains_key(key)
            && cf.contents()[key] == level_layer(cf.levels@[l]@)[key],
        !cf.mem@.contains_key(key) && l == cf.levels@.len() ==> !cf.contents().contains_key(key),
{
    lemma_first_level(cf.levels@, key, 0, l);
    assert(mem_layers(cf.imm@) =~= Seq::<Layer>::empty());
}

proof fn lemma_first_level(levels: Seq<Vec<SSTable>>, key: Seq<u8>, from: int, l: int)
    requires
        0 <= from <= l <= levels.len(),
        forall|m: int| from <= m < l ==> !level_layer((#[trigger] levels[m])@).contains_key(key),
        l < levels.len() ==> level_layer(levels[l]@).contains_key(key),
    ensures
        levels_layer(levels, from).contains_key(key) == (l < levels.len()),
        l < levels.len() ==> levels_layer(levels, from)[key] == level_layer(levels[l]@)[key],
    decreases l - from,
{
    if from < l {
        lemma_first_level(levels, key, from + 1, l);
        assert(!level_layer(levels[from]@).contains_key(key));
    }
}

} // verus!
