//! A merged iteration over several sorted sources.
//!
//! Each source is sorted by key; source 0 is the newest. The cursor always takes
//! the smallest key next, and of equal keys that of the newest source; the others
//! are stale and skipped. Tombstones are skipped too.

use crate::bytes::{bytes_eq, bytes_lt, copy_bytes, copy_value, lemma_lex_order, lemma_lex_total,
    lex_lt, Model};
use crate::layers::{shown, upto};
use crate::memtable::{MemEntry, MemTable};
use crate::sorted_map::{assoc, holds_key, keys_ascend, law_last_pair_counts, lemma_assoc_contains,
    lemma_assoc_index, pairs};
use crate::sstable::SSTable;
use crate::table_format::{block_entries, intact, Entry};
use vstd::prelude::*;

verus! {

/// What a source yields: a key, the sequence number of its write, and the value
/// or `None` for a tombstone.
pub type Item = (Vec<u8>, u64, Option<Vec<u8>>);

/// The keys and values of a source.
pub open spec fn item_pairs(v: Seq<Item>) -> Seq<(Seq<u8>, Option<Seq<u8>>)> {
    v.map_values(|x: Item| (x.0@, x.2.model()))
}

/// What is left of each source.
pub open spec fn rests(
    sources: Seq<Vec<Item>>,
    pos: Seq<usize>,
) -> Seq<Seq<(Seq<u8>, Option<Seq<u8>>)>> {
    Seq::new(sources.len(), |i: int| item_pairs(sources[i]@).skip(pos[i] as int))
}

/// What shows through the sources from `i` on, where earlier ones hide later ones.
pub open spec fn overlay(
    rests: Seq<Seq<(Seq<u8>, Option<Seq<u8>>)>>,
    i: int,
) -> Map<Seq<u8>, Option<Seq<u8>>>
    decreases rests.len() - i,
{
    if i < 0 || i >= rests.len() {
        Map::empty()
    } else {
        overlay(rests, i + 1).union_prefer_right(assoc(rests[i]))
    }
}

/// The values of a map without its tombstones.
pub open spec fn values_of(m: Map<Seq<u8>, Option<Seq<u8>>>) -> Map<Seq<u8>, Seq<u8>> {
    Map::new(|k: Seq<u8>| m.contains_key(k) && m[k] is Some, |k: Seq<u8>| m[k]->0)
}

/// Every source is sorted by key.
pub open spec fn sources_ascend(sources: Seq<Vec<Item>>) -> bool {
    forall|i: int| 0 <= i < sources.len() ==> keys_ascend(item_pairs((#[trigger] sources[i])@))
}

/// No key that is left comes before `k`.
pub open spec fn none_before(
    rests: Seq<Seq<(Seq<u8>, Option<Seq<u8>>)>>,
    from: int,
    k: Seq<u8>,
) -> bool {
    forall|i: int, j: int|
        from <= i < rests.len() && 0 <= j < rests[i].len() ==> !lex_lt(
            (#[trigger] rests[i][j]).0,
            k,
        )
}

/// A sorted, deduplicated iteration over all sources.
pub struct Cursor {
    sources: Vec<Vec<Item>>,
    pos: Vec<usize>,
    last_key: Option<Vec<u8>>,
}

impl Cursor {
    spec fn left(&self) -> Seq<Seq<(Seq<u8>, Option<Seq<u8>>)>> {
        rests(self.sources@, self.pos@)
    }

    /// The sources are sorted, and nothing that is left comes before the last
    /// key that was taken.
    pub closed spec fn wf(&self) -> bool {
        &&& self.pos@.len() == self.sources@.len()
        &&& forall|i: int|
            0 <= i < self.pos@.len() ==> #[trigger] self.pos@[i] <= self.sources@[i]@.len()
        &&& sources_ascend(self.sources@)
        &&& self.last_key matches Some(k) ==> none_before(self.left(), 0, k@)
    }

    /// The pairs that are still to come.
    pub closed spec fn view(&self) -> Map<Seq<u8>, Seq<u8>> {
        let all = values_of(overlay(self.left(), 0));
        match self.last_key {
            Some(k) => all.remove(k@),
            None => all,
        }
    }

    /// How many items of the sources were not looked at.
    pub closed spec fn remaining(&self) -> nat {
        left_over(self.left())
    }

    /// Iterate over `sources`, the newest first.
    pub fn new(sources: Vec<Vec<Item>>) -> (r: Cursor)
        requires
            sources_ascend(sources@),
        ensures
            r.wf(),
            r@ == values_of(
                overlay(
                    sources@.map_values(|s: Vec<Item>| item_pairs(s@)),
                    0,
                ),
            ),
    {
        let n: usize = sources.len();
        let mut pos: Vec<usize> = Vec::new();
        let mut i: usize = 0;
        while i < n
            invariant
                i <= n,
                pos@.len() == i,
                forall|j: int| 0 <= j < i ==> pos@[j] == 0,
            decreases n - i,
        {
            pos.push(0);
            i = i + 1;
        }
        let ghost all = sources@.map_values(|s: Vec<Item>| item_pairs(s@));
        let r: Cursor = Cursor { sources, pos, last_key: None };
        proof {
            let left = r.left();
            assert forall|j: int| 0 <= j < left.len() implies left[j] == all[j] by {
                assert(item_pairs(sources@[j]@).skip(0) =~= item_pairs(sources@[j]@));
            }
            assert(left =~= all);
        }
        r
    }

    /// The source whose next key is the smallest, the newest of them if there
    /// are several.
    fn smallest(&self) -> (r: Option<usize>)
        requires
            self.wf(),
        ensures
            match r {
                Some(s) => {
                    &&& s < self.sources@.len()
                    &&& self.pos@[s as int] < self.sources@[s as int]@.len()
                    &&& none_before(self.left(), 0, self.left()[s as int][0].0)
                    &&& forall|i: int|
                        0 <= i < s ==> !(#[trigger] assoc(self.left()[i])).contains_key(
                            self.left()[s as int][0].0,
                        )
                },
                None => forall|i: int|
                    0 <= i < self.left().len() ==> (#[trigger] self.left()[i]).len() == 0,
            },
    {
        let n: usize = self.sources.len();
        let ghost left = self.left();
        let mut best: Option<usize> = None;
        let mut i: usize = n;
        while i > 0
            invariant
                self.wf(),
                n == self.sources@.len(),
                left == self.left(),
                i <= n,
                match best {
                    Some(s) => {
                        &&& i <= s < n
                        &&& self.pos@[s as int] < self.sources@[s as int]@.len()
                        &&& none_before(left, i as int, left[s as int][0].0)
                        &&& forall|j: int|
                            i <= j < s ==> !(#[trigger] assoc(left[j])).contains_key(
                                left[s as int][0].0,
                            )
                    },
                    None => forall|j: int| i <= j < n ==> (#[trigger] left[j]).len() == 0,
                },
            decreases i,
        {
            i = i - 1;
            let p: usize = self.pos[i];
            let ghost mine = left[i as int];
            proof {
                self.lemma_source(i as int);
                lemma_lex_order();
            }
            if p < self.sources[i].len() {
                let key: &Vec<u8> = &self.sources[i][p].0;
                assert(mine[0].0 == key@);
                match best {
                    Some(s) => {
                        let other: &Vec<u8> = &self.sources[s][self.pos[s]].0;
                        proof {
                            self.lemma_source(s as int);
                        }
                        assert(left[s as int][0].0 == other@);
                        if bytes_lt(other.as_slice(), key.as_slice()) {
                            proof {
                                lemma_ascending_from(mine, other@);
                                assert forall|a: int, b: int|
                                    i <= a < left.len() && 0 <= b < left[a].len() implies !lex_lt(
                                    (#[trigger] left[a][b]).0,
                                    other@,
                                ) by {
                                    if a == i && lex_lt(left[a][b].0, other@) {
                                        assert(lex_lt(other@, mine[b].0));
                                    }
                                }
                            }
                        } else {
                            proof {
                                lemma_lex_total(other@, key@);
                                assert forall|a: int, b: int|
                                    i <= a < left.len() && 0 <= b < left[a].len() implies !lex_lt(
                                    (#[trigger] left[a][b]).0,
                                    key@,
                                ) by {
                                    if lex_lt(left[a][b].0, key@) {
                                        if a == i {
                                            if b > 0 {
                                                assert(lex_lt(mine[0].0, mine[b].0));
                                            }
                                        } else {
                                            assert(!lex_lt(left[a][b].0, other@));
                                            if key@ != other@ {
                                                assert(lex_lt(key@, other@));
                                                assert(lex_lt(left[a][b].0, other@));
                                            }
                                        }
                                    }
                                }
                            }
                            best = Some(i);
                        }
                    },
                    None => {
                        proof {
                            assert forall|a: int, b: int|
                                i <= a < left.len() && 0 <= b < left[a].len() implies !lex_lt(
                                (#[trigger] left[a][b]).0,
                                key@,
                            ) by {
                                if a == i {
                                    if b > 0 {
                                        assert(lex_lt(mine[0].0, mine[b].0));
                                    }
                                } else {
                                    assert(left[a].len() == 0);
                                }
                            }
                        }
                        best = Some(i);
                    },
                }
            } else {
                assert(mine =~= Seq::<(Seq<u8>, Option<Seq<u8>>)>::empty());
            }
        }
        best
    }

    proof fn lemma_source(&self, i: int)
        requires
            self.wf(),
            0 <= i < self.sources@.len(),
        ensures
            self.left().len() == self.sources@.len(),
            keys_ascend(self.left()[i]),
            self.left()[i].len() == self.sources@[i]@.len() - self.pos@[i],
            self.pos@[i] < self.sources@[i]@.len() ==> self.left()[i][0] == (
                self.sources@[i]@[self.pos@[i] as int].0@,
                self.sources@[i]@[self.pos@[i] as int].2.model(),
            ),
    {
        let all = item_pairs(self.sources@[i]@);
        let p = self.pos@[i] as int;
        assert(self.left()[i] == all.skip(p));
        assert(keys_ascend(all));
        assert forall|a: int, b: int| 0 <= a < b < all.skip(p).len() implies lex_lt(
            #[trigger] all.skip(p)[a].0,
            #[trigger] all.skip(p)[b].0,
        ) by {
            assert(all.skip(p)[a] == all[a + p] && all.skip(p)[b] == all[b + p]);
        }
    }

    /// The next pair, in ascending key order: the smallest key that is still to
    /// come, or `None` at the end.
    pub fn next(&mut self) -> (r: Option<(Vec<u8>, Vec<u8>)>)
        requires
            old(self).wf(),
        ensures
            final(self).wf(),
            match r {
                Some((k, v)) => {
                    &&& old(self)@.contains_key(k@)
                    &&& old(self)@[k@] == v@
                    &&& forall|other: Seq<u8>|
                        #[trigger] old(self)@.contains_key(other) ==> !lex_lt(other, k@)
                    &&& final(self)@ == old(self)@.remove(k@)
                    &&& final(self).remaining() < old(self).remaining()
                },
                None => {
                    &&& old(self)@ == Map::<Seq<u8>, Seq<u8>>::empty()
                    &&& final(self)@ == old(self)@
                },
            },
    {
        let ghost start = self@;
        loop
            invariant
                self.wf(),
                self@ == start,
                start == old(self)@,
                self.remaining() <= old(self).remaining(),
            decreases self.remaining(),
        {
            let s: usize = match self.smallest() {
                Some(s) => s,
                None => {
                    proof {
                        lemma_overlay_empty(self.left(), 0);
                        assert(self@ =~= Map::<Seq<u8>, Seq<u8>>::empty());
                    }
                    return None;
                },
            };
            let p: usize = self.pos[s];
            let ghost before = self.left();
            let ghost view_before = self@;
            let ghost last_before = self.last_key;
            proof {
                self.lemma_source(s as int);
                assert(self.sources@[s as int].len() <= usize::MAX);
            }
            let key: Vec<u8> = copy_bytes(self.sources[s][p].0.as_slice());
            let value: Option<Vec<u8>> = copy_value(&self.sources[s][p].2);
            let ghost k = key@;
            let ghost v = value.model();
            let ghost me = *self;
            self.pos.set(s, p + 1);
            let stale: bool = match &self.last_key {
                Some(l) => bytes_eq(l.as_slice(), key.as_slice()),
                None => false,
            };
            let ghost after = self.left();
            proof {
                me.lemma_take(s as int, *self);
                lemma_overlay_step(before, after, s as int, 0);
                lemma_left_over_step(before, after, s as int);
                lemma_values_remove(overlay(after, 0), overlay(before, 0), k);
            }
            if stale {
                proof {
                    assert(none_before(after, 0, k)) by {
                        lemma_none_before_step(before, after, s as int, k);
                    }
                    assert(self@ =~= view_before);
                }
                continue;
            }
            let copy: Vec<u8> = copy_bytes(key.as_slice());
            self.last_key = Some(copy);
            proof {
                lemma_none_before_step(before, after, s as int, k);
                if let Some(l) = last_before {
                    lemma_lex_order();
                    assert(!lex_lt(before[s as int][0].0, l@));
                    lemma_lex_total(k, l@);
                    assert(lex_lt(l@, k));
                    if overlay(before, 0).contains_key(l@) {
                        lemma_overlay_key(before, 0, l@);
                        let (a, b) = choose|a: int, b: int| item_has(before, a, b, l@);
                        assert(item_has(before, a, b, l@));
                        assert(!lex_lt(before[a][b].0, k));
                    }
                    assert(values_of(overlay(before, 0)).remove(l@) =~= values_of(
                        overlay(before, 0),
                    ));
                }
                assert(view_before == values_of(overlay(before, 0)));
                assert(self@ =~= view_before.remove(k));
            }
            match value {
                Some(val) => {
                    proof {
                        assert(overlay(before, 0)[k] == Some(val@));
                        assert forall|other: Seq<u8>| #[trigger]
                            start.contains_key(other) implies !lex_lt(other, k) by {
                            lemma_overlay_key(before, 0, other);
                            let (a, b) = choose|a: int, b: int| item_has(before, a, b, other);
                            assert(item_has(before, a, b, other));
                            assert(!lex_lt(before[a][b].0, k));
                        }
                    }
                    return Some((key, val));
                },
                None => {
                    assert(!view_before.contains_key(k));
                    assert(self@ =~= start);
                },
            }
        }
    }

    proof fn lemma_take(&self, s: int, after: Cursor)
        requires
            self.wf(),
            0 <= s < self.sources@.len(),
            self.pos@[s] < self.sources@[s]@.len(),
            after.sources == self.sources,
            after.pos@ == self.pos@.update(s, (self.pos@[s] + 1) as usize),
        ensures
            after.left() == self.left().update(s, self.left()[s].drop_first()),
            forall|i: int|
                0 <= i < after.pos@.len() ==> #[trigger] after.pos@[i] <= after.sources@[i]@.len(),
            forall|i: int| 0 <= i < self.left().len() ==> keys_ascend(#[trigger] self.left()[i]),
    {
        assert forall|i: int| 0 <= i < self.left().len() implies keys_ascend(
            #[trigger] self.left()[i],
        ) by {
            self.lemma_source(i);
        }
        assert(self.sources@[s].len() <= usize::MAX);
        let x = self.left().update(s, self.left()[s].drop_first());
        assert forall|i: int| 0 <= i < x.len() implies after.left()[i] == x[i] by {
            if i == s {
                assert(item_pairs(self.sources@[s]@).skip(self.pos@[s] + 1) =~= item_pairs(
                    self.sources@[s]@,
                ).skip(self.pos@[s] as int).drop_first());
            }
        }
        assert(after.left() =~= x);
    }

    /// All the pairs that are still to come, in ascending key order.
    pub fn collect(self) -> (r: Vec<(Vec<u8>, Vec<u8>)>)
        requires
            self.wf(),
        ensures
            keys_ascend(pairs(r@)),
            assoc(pairs(r@)) == self@,
    {
        let mut cursor: Cursor = self;
        let ghost all = cursor@;
        let mut r: Vec<(Vec<u8>, Vec<u8>)> = Vec::new();
        assert(pairs(r@) =~= Seq::<(Seq<u8>, Seq<u8>)>::empty());
        assert(assoc(pairs(r@)).union_prefer_right(all) =~= all);
        loop
            invariant
                cursor.wf(),
                keys_ascend(pairs(r@)),
                all == assoc(pairs(r@)).union_prefer_right(cursor@),
                forall|i: int, k: Seq<u8>|
                    0 <= i < r@.len() && #[trigger] cursor@.contains_key(k) ==> lex_lt(
                        #[trigger] pairs(r@)[i].0,
                        k,
                    ),
            ensures
                keys_ascend(pairs(r@)),
                assoc(pairs(r@)) == all,
            decreases cursor.remaining(),
        {
            let ghost view_before = cursor@;
            let ghost before = pairs(r@);
            match cursor.next() {
                Some((k, v)) => {
                    let ghost kv = (k@, v@);
                    r.push((k, v));
                    proof {
                        let after = pairs(r@);
                        assert(after =~= before.push(kv));
                        assert(after.drop_last() =~= before);
                        assert(assoc(after).union_prefer_right(cursor@) =~= assoc(
                            before,
                        ).union_prefer_right(view_before));
                        assert forall|i: int, j: Seq<u8>|
                            0 <= i < r@.len() && #[trigger] cursor@.contains_key(j) implies lex_lt(
                            #[trigger] after[i].0,
                            j,
                        ) by {
                            assert(view_before.contains_key(j));
                            if i == r@.len() - 1 {
                                lemma_lex_total(kv.0, j);
                            } else {
                                assert(after[i] == before[i]);
                            }
                        }
                        assert forall|a: int, b: int| 0 <= a < b < after.len() implies lex_lt(
                            #[trigger] after[a].0,
                            #[trigger] after[b].0,
                        ) by {
                            assert(after[a] == before[a]);
                            if b < before.len() {
                                assert(after[b] == before[b]);
                            } else {
                                assert(view_before.contains_key(kv.0));
                            }
                        }
                    }
                },
                None => {
                    assert(assoc(pairs(r@)).union_prefer_right(cursor@) =~= assoc(pairs(r@)));
                    break;
                },
            }
        }
        r
    }
}

// ---- sources -------------------------------------------------------------------

/// The entries that were written no later than `max_seq`.
pub open spec fn entries_upto(es: Seq<Entry>, max_seq: u64) -> Seq<Entry>
    decreases es.len(),
{
    if es.len() == 0 {
        Seq::empty()
    } else {
        let before = entries_upto(es.drop_last(), max_seq);
        if es.last().1.seq <= max_seq {
            before.push(es.last())
        } else {
            before
        }
    }
}

/// The entries of one part followed by those of another.
pub proof fn lemma_upto_concat(a: Seq<Entry>, b: Seq<Entry>, max_seq: u64)
    ensures
        entries_upto(a + b, max_seq) == entries_upto(a, max_seq) + entries_upto(b, max_seq),
    decreases b.len(),
{
    if b.len() == 0 {
        assert(a + b =~= a);
        assert(entries_upto(a, max_seq) + entries_upto(b, max_seq) =~= entries_upto(a, max_seq));
    } else {
        lemma_upto_concat(a, b.drop_last(), max_seq);
        assert((a + b).drop_last() =~= a + b.drop_last());
        assert(entries_upto(a + b, max_seq) =~= entries_upto(a, max_seq) + entries_upto(b, max_seq));
    }
}

/// Leaving entries out of a sorted run leaves them out of its map.
pub proof fn lemma_upto_assoc(es: Seq<Entry>, max_seq: u64)
    requires
        keys_ascend(es),
    ensures
        keys_ascend(entries_upto(es, max_seq)),
        assoc(entries_upto(es, max_seq)) == upto(assoc(es), max_seq),
    decreases es.len(),
{
    let r = entries_upto(es, max_seq);
    if es.len() == 0 {
        assert(assoc(r) =~= upto(assoc(es), max_seq));
    } else {
        let less = es.drop_last();
        let e = es.last();
        assert forall|a: int, b: int| 0 <= a < b < less.len() implies lex_lt(
            #[trigger] less[a].0,
            #[trigger] less[b].0,
        ) by {
            assert(less[a] == es[a] && less[b] == es[b]);
        }
        lemma_upto_assoc(less, max_seq);
        let q = entries_upto(less, max_seq);
        lemma_lex_order();
        lemma_assoc_contains(less, e.0);
        if assoc(less).contains_key(e.0) {
            let j = choose|j: int| holds_key(less, e.0, j);
            assert(holds_key(less, e.0, j));
            assert(less[j] == es[j]);
            assert(lex_lt(es[j].0, es[es.len() - 1].0));
        }
        if e.1.seq <= max_seq {
            assert(r.drop_last() =~= q);
            assert forall|a: int, b: int| 0 <= a < b < r.len() implies lex_lt(
                #[trigger] r[a].0,
                #[trigger] r[b].0,
            ) by {
                assert(r[a] == q[a]);
                if b < q.len() {
                    assert(r[b] == q[b]);
                } else {
                    lemma_assoc_index(q, a);
                    lemma_assoc_contains(less, q[a].0);
                    let j = choose|j: int| holds_key(less, q[a].0, j);
                    assert(holds_key(less, q[a].0, j));
                    assert(less[j] == es[j]);
                    assert(lex_lt(es[j].0, es[es.len() - 1].0));
                }
            }
        }
        assert(assoc(r) =~= upto(assoc(es), max_seq));
    }
}

/// The entries of the blocks of a table from `j` on, as far as the first damaged one.
pub open spec fn run_from(t: &SSTable, j: int) -> Seq<Entry>
    decreases t.index().len() - j,
{
    if j < 0 || j >= t.index().len() {
        Seq::empty()
    } else {
        match t.part(j) {
            Some(es) => es + run_from(t, j + 1),
            None => Seq::empty(),
        }
    }
}

proof fn lemma_run(t: &SSTable, j: int)
    requires
        t.wf(),
        !t.is_damaged(),
        0 <= j <= t.index().len(),
    ensures
        t.entries() == intact(t.bytes(), j) + run_from(t, j),
    decreases t.index().len() - j,
{
    t.lemma_wf();
    let data = t.bytes();
    if j == t.index().len() {
        assert(intact(data, j) + run_from(t, j) =~= intact(data, j));
    } else {
        lemma_run(t, j + 1);
        assert(t.part(j) is Some);
        let es = t.part(j)->0;
        assert(block_entries(data, j) == Some(es));
        assert(intact(data, j) + es + run_from(t, j + 1) =~= intact(data, j) + (es + run_from(
            t,
            j + 1,
        )));
    }
}

/// Without damage the blocks hold all the entries of a table.
pub proof fn law_run_is_whole(t: &SSTable)
    requires
        t.wf(),
        !t.is_damaged(),
    ensures
        run_from(t, 0) == t.entries(),
{
    lemma_run(t, 0);
    assert(intact(t.bytes(), 0) + run_from(t, 0) =~= run_from(t, 0));
}

/// Iterates over one table, a block at a time, as far as the first damaged one.
pub struct SstableBlockIter<'a> {
    table: &'a SSTable,
    block_idx: usize,
    /// What is left of the block that was loaded last, in reverse order.
    entries: Vec<(Vec<u8>, MemEntry)>,
    max_seq: u64,
}

impl<'a> SstableBlockIter<'a> {
    /// The table is well-formed.
    pub closed spec fn wf(&self) -> bool {
        &&& self.table.wf()
        &&& self.block_idx <= self.table.index().len()
    }

    /// The entries that are still to come.
    pub closed spec fn view(&self) -> Seq<Entry> {
        pairs(self.entries@).reverse() + entries_upto(
            run_from(self.table, self.block_idx as int),
            self.max_seq,
        )
    }

    /// Iterate over the entries of a table that were written no later than
    /// `max_seq`.
    pub fn new(table: &'a SSTable, max_seq: u64) -> (r: Self)
        requires
            table.wf(),
        ensures
            r.wf(),
            r@ == entries_upto(run_from(table, 0), max_seq),
    {
        let r: SstableBlockIter<'a> = SstableBlockIter {
            table,
            block_idx: 0,
            entries: Vec::new(),
            max_seq,
        };
        proof {
            assert(pairs(r.entries@).reverse() =~= Seq::<Entry>::empty());
            assert(r@ =~= entries_upto(run_from(table, 0), max_seq));
        }
        r
    }

    /// Load blocks until one has an entry that is not left out. Returns `false`
    /// when there are no more or the next one is damaged.
    fn load_next_block(&mut self) -> (r: bool)
        requires
            old(self).wf(),
            old(self).entries@.len() == 0,
        ensures
            final(self).wf(),
            final(self)@ == old(self)@,
            r == (final(self).entries@.len() > 0),
            !r ==> final(self)@ == Seq::<Entry>::empty(),
    {
        let ghost start = self@;
        let n: usize = self.table.block_count();
        while self.block_idx < n
            invariant
                self.wf(),
                n == self.table.index().len(),
                self.entries@.len() == 0,
                self.max_seq == old(self).max_seq,
                self@ == start,
                start == old(self)@,
            ensures
                self.wf(),
                n == self.table.index().len(),
                self.block_idx == n,
                self.entries@.len() == 0,
                self@ == start,
            decreases n - self.block_idx,
        {
            let j: usize = self.block_idx;
            let ghost rest = run_from(self.table, j + 1);
            let mut loaded: Vec<(Vec<u8>, MemEntry)> = match self.table.load_block(j) {
                Ok(v) => v,
                Err(_) => {
                    self.block_idx = n;
                    break;
                },
            };
            let ghost block = pairs(loaded@);
            self.block_idx = j + 1;
            let ghost was_empty = self.entries@;
            assert(block.take(block.len() as int) =~= block);
            assert(pairs(self.entries@).reverse() =~= Seq::<Entry>::empty());
            assert(block.skip(block.len() as int) =~= Seq::<Entry>::empty());
            while loaded.len() > 0
                invariant
                    self.wf(),
                    n == self.table.index().len(),
                    rest == run_from(self.table, j + 1),
                    self.block_idx == j + 1,
                    self.max_seq == old(self).max_seq,
                    loaded@.len() <= block.len(),
                    pairs(loaded@) == block.take(loaded@.len() as int),
                    pairs(self.entries@).reverse() == entries_upto(
                        block.skip(loaded@.len() as int),
                        self.max_seq,
                    ),
                decreases loaded@.len(),
            {
                let ghost before = pairs(self.entries@);
                let ghost m = loaded@.len() - 1;
                let ghost old_loaded = pairs(loaded@);
                match loaded.pop() {
                    Some((k, e)) => {
                        let ghost x = (k@, e.model());
                        proof {
                            assert(old_loaded.last() == x);
                            assert(block[m] == x);
                            assert(pairs(loaded@) =~= block.take(m));
                            assert(block.skip(m) =~= seq![x] + block.skip(m + 1));
                            lemma_upto_concat(seq![x], block.skip(m + 1), self.max_seq);
                            assert(seq![x].drop_last() =~= Seq::<Entry>::empty());
                            reveal_with_fuel(entries_upto, 2);
                        }
                        if e.seq <= self.max_seq {
                            self.entries.push((k, e));
                            proof {
                                assert(pairs(self.entries@) =~= before.push(x));
                                assert(pairs(self.entries@).reverse() =~= seq![x]
                                    + before.reverse());
                                assert(entries_upto(seq![x], self.max_seq) =~= seq![x]);
                            }
                        } else {
                            assert(entries_upto(seq![x], self.max_seq) =~= Seq::<Entry>::empty());
                            assert(Seq::<Entry>::empty() + before.reverse() =~= before.reverse());
                        }
                    },
                    None => {},
                }
            }
            proof {
                assert(block.skip(0) =~= block);
                lemma_upto_concat(block, rest, self.max_seq);
                assert(pairs(was_empty).reverse() =~= Seq::<Entry>::empty());
                assert(Seq::<Entry>::empty() + entries_upto(block + rest, self.max_seq)
                    =~= entries_upto(block + rest, self.max_seq));
                assert(self@ == start);
            }
            if self.entries.len() > 0 {
                return true;
            }
        }
        proof {
            assert(pairs(self.entries@).reverse() =~= Seq::<Entry>::empty());
            assert(self@ =~= Seq::<Entry>::empty());
        }
        false
    }

    /// The next entry.
    pub fn next(&mut self) -> (r: Option<(Vec<u8>, MemEntry)>)
        requires
            old(self).wf(),
        ensures
            final(self).wf(),
            match r {
                Some((k, e)) => {
                    &&& old(self)@.len() > 0
                    &&& old(self)@[0] == (k@, e.model())
                    &&& final(self)@ == old(self)@.drop_first()
                },
                None => old(self)@.len() == 0 && final(self)@ == old(self)@,
            },
    {
        if self.entries.len() == 0 {
            if !self.load_next_block() {
                return None;
            }
        }
        let ghost before = pairs(self.entries@);
        let ghost all = self@;
        match self.entries.pop() {
            Some((k, e)) => {
                proof {
                    assert(before.last() == (k@, e.model()));
                    assert(pairs(self.entries@) =~= before.drop_last());
                    assert(self@ =~= all.drop_first());
                }
                Some((k, e))
            },
            None => None,
        }
    }
}

/// What a source of a cursor yields for an entry.
fn item_of(key: Vec<u8>, e: &MemEntry, now: u64) -> (r: Item)
    ensures
        r.0@ == key@,
        r.1 == e.seq,
        r.2.model() == e.model().at(now),
{
    (key, e.seq, e.value_at(now))
}

/// The items of a run of entries for a reader whose clock shows `now`.
pub open spec fn items_of(es: Seq<Entry>, now: u64) -> Seq<(Seq<u8>, Option<Seq<u8>>)> {
    es.map_values(|e: Entry| (e.0, e.1.at(now)))
}

/// The items of a run show what its entries show.
pub proof fn lemma_items_assoc(es: Seq<Entry>, now: u64)
    ensures
        keys_ascend(es) ==> keys_ascend(items_of(es, now)),
        assoc(items_of(es, now)) == shown(assoc(es), now),
    decreases es.len(),
{
    let it = items_of(es, now);
    if keys_ascend(es) {
        assert forall|a: int, b: int| 0 <= a < b < it.len() implies lex_lt(
            #[trigger] it[a].0,
            #[trigger] it[b].0,
        ) by {
            assert(it[a].0 == es[a].0 && it[b].0 == es[b].0);
        }
    }
    if es.len() == 0 {
        assert(assoc(it) =~= shown(assoc(es), now));
    } else {
        lemma_items_assoc(es.drop_last(), now);
        assert(it.drop_last() =~= items_of(es.drop_last(), now));
        assert(assoc(it) =~= shown(assoc(es), now));
    }
}

/// A memtable as a source: its entries that were written no later than `max_seq`.
pub fn mem_source(mem: &MemTable, max_seq: u64, now: u64) -> (r: Vec<Item>)
    requires
        mem.wf(),
    ensures
        keys_ascend(item_pairs(r@)),
        assoc(item_pairs(r@)) == shown(upto(mem@, max_seq), now),
{
    let ghost es = mem.pairs();
    let mut r: Vec<Item> = Vec::new();
    let n: usize = mem.len();
    let mut i: usize = 0;
    assert(es.take(0) =~= Seq::<Entry>::empty());
    assert(item_pairs(r@) =~= items_of(entries_upto(es.take(0), max_seq), now));
    while i < n
        invariant
            i <= n,
            n == es.len(),
            es == mem.pairs(),
            item_pairs(r@) == items_of(entries_upto(es.take(i as int), max_seq), now),
        decreases n - i,
    {
        let e: &MemEntry = mem.entry_at(i);
        let ghost before = item_pairs(r@);
        proof {
            let t = es.take(i + 1);
            assert(t.drop_last() =~= es.take(i as int));
            assert(t.last() == es[i as int]);
        }
        if e.seq <= max_seq {
            let item: Item = item_of(copy_bytes(mem.key_at(i).as_slice()), e, now);
            let ghost x = (item.0@, item.2.model());
            r.push(item);
            proof {
                assert(item_pairs(r@) =~= before.push(x));
                assert(items_of(entries_upto(es.take(i + 1), max_seq), now) =~= before.push(x));
            }
        }
        i = i + 1;
    }
    proof {
        assert(es.take(i as int) =~= es);
        lemma_upto_assoc(es, max_seq);
        lemma_items_assoc(entries_upto(es, max_seq), now);
    }
    r
}

/// A table as a source: its entries that were written no later than `max_seq`.
pub fn table_source(table: &SSTable, max_seq: u64, now: u64) -> (r: Vec<Item>)
    requires
        table.wf(),
        !table.is_damaged(),
    ensures
        keys_ascend(item_pairs(r@)),
        assoc(item_pairs(r@)) == shown(upto(table@, max_seq), now),
{
    let ghost es = entries_upto(table.entries(), max_seq);
    proof {
        law_run_is_whole(table);
    }
    let mut it: SstableBlockIter = SstableBlockIter::new(table, max_seq);
    let mut r: Vec<Item> = Vec::new();
    let ghost mut i: int = 0;
    assert(es.take(0) =~= Seq::<Entry>::empty());
    assert(es.skip(0) =~= es);
    assert(item_pairs(r@) =~= items_of(es.take(0), now));
    loop
        invariant
            it.wf(),
            0 <= i <= es.len(),
            it@ == es.skip(i),
            item_pairs(r@) == items_of(es.take(i), now),
        ensures
            item_pairs(r@) == items_of(es, now),
        decreases es.len() - i,
    {
        match it.next() {
            Some((k, e)) => {
                let ghost before = item_pairs(r@);
                let item: Item = item_of(k, &e, now);
                let ghost x = (item.0@, item.2.model());
                r.push(item);
                proof {
                    assert(es.skip(i)[0] == es[i]);
                    assert(item_pairs(r@) =~= before.push(x));
                    assert(items_of(es.take(i + 1), now) =~= before.push(x));
                    assert(es.skip(i).drop_first() =~= es.skip(i + 1));
                    i = i + 1;
                }
            },
            None => {
                assert(es.take(i) =~= es);
                break;
            },
        }
    }
    proof {
        table.lemma_wf();
        lemma_upto_assoc(table.entries(), max_seq);
        lemma_items_assoc(es, now);
    }
    r
}

// ---- facts ---------------------------------------------------------------------

/// How many items are left.
spec fn left_over(rests: Seq<Seq<(Seq<u8>, Option<Seq<u8>>)>>) -> nat
    decreases rests.len(),
{
    if rests.len() == 0 {
        0
    } else {
        left_over(rests.drop_last()) + rests.last().len()
    }
}

proof fn lemma_left_over_step(
    before: Seq<Seq<(Seq<u8>, Option<Seq<u8>>)>>,
    after: Seq<Seq<(Seq<u8>, Option<Seq<u8>>)>>,
    s: int,
)
    requires
        0 <= s < before.len(),
        before[s].len() > 0,
        after == before.update(s, before[s].drop_first()),
    ensures
        left_over(after) + 1 == left_over(before),
    decreases before.len(),
{
    if s == before.len() - 1 {
        assert(after.drop_last() =~= before.drop_last());
    } else {
        assert(after.drop_last() =~= before.drop_last().update(s, before[s].drop_first()));
        lemma_left_over_step(before.drop_last(), after.drop_last(), s);
    }
}

proof fn lemma_ascending_from(s: Seq<(Seq<u8>, Option<Seq<u8>>)>, k: Seq<u8>)
    requires
        keys_ascend(s),
        s.len() > 0,
        lex_lt(k, s[0].0),
    ensures
        forall|i: int| 0 <= i < s.len() ==> lex_lt(k, #[trigger] s[i].0),
        !assoc(s).contains_key(k),
{
    lemma_lex_order();
    assert forall|i: int| 0 <= i < s.len() implies lex_lt(k, #[trigger] s[i].0) by {
        if i > 0 {
            assert(lex_lt(s[0].0, s[i].0));
        }
    }
    lemma_assoc_contains(s, k);
    if assoc(s).contains_key(k) {
        let i = choose|i: int| holds_key(s, k, i);
        assert(holds_key(s, k, i));
    }
}

proof fn lemma_overlay_empty(rests: Seq<Seq<(Seq<u8>, Option<Seq<u8>>)>>, i: int)
    requires
        0 <= i <= rests.len(),
        forall|j: int| 0 <= j < rests.len() ==> (#[trigger] rests[j]).len() == 0,
    ensures
        overlay(rests, i) == Map::<Seq<u8>, Option<Seq<u8>>>::empty(),
    decreases rests.len() - i,
{
    if i < rests.len() {
        lemma_overlay_empty(rests, i + 1);
        assert(rests[i].len() == 0);
        assert(overlay(rests, i) =~= Map::<Seq<u8>, Option<Seq<u8>>>::empty());
    }
}

/// Item `b` of source `a` has the key `k`.
spec fn item_has(rests: Seq<Seq<(Seq<u8>, Option<Seq<u8>>)>>, a: int, b: int, k: Seq<u8>) -> bool {
    0 <= a < rests.len() && 0 <= b < rests[a].len() && rests[a][b].0 == k
}

proof fn lemma_overlay_key(rests: Seq<Seq<(Seq<u8>, Option<Seq<u8>>)>>, i: int, k: Seq<u8>)
    requires
        0 <= i <= rests.len(),
        overlay(rests, i).contains_key(k),
    ensures
        exists|a: int, b: int| item_has(rests, a, b, k),
    decreases rests.len() - i,
{
    if i < rests.len() {
        if assoc(rests[i]).contains_key(k) {
            lemma_assoc_contains(rests[i], k);
            let b = choose|b: int| holds_key(rests[i], k, b);
            assert(holds_key(rests[i], k, b));
            assert(item_has(rests, i, b, k));
        } else {
            lemma_overlay_key(rests, i + 1, k);
        }
    }
}

proof fn lemma_overlay_step(
    before: Seq<Seq<(Seq<u8>, Option<Seq<u8>>)>>,
    after: Seq<Seq<(Seq<u8>, Option<Seq<u8>>)>>,
    s: int,
    i: int,
)
    requires
        0 <= s < before.len(),
        0 <= i <= before.len(),
        before[s].len() > 0,
        after == before.update(s, before[s].drop_first()),
        keys_ascend(before[s]),
        forall|j: int|
            0 <= j < s ==> !(#[trigger] assoc(before[j])).contains_key(before[s][0].0),
    ensures
        overlay(after, i).remove(before[s][0].0) == overlay(before, i).remove(before[s][0].0),
        i <= s ==> overlay(before, i).contains_key(before[s][0].0) && overlay(before, i)[before[s][0].0]
            == before[s][0].1,
    decreases before.len() - i,
{
    let k = before[s][0].0;
    if i < before.len() {
        lemma_overlay_step(before, after, s, i + 1);
        let oa = overlay(after, i + 1);
        let ob = overlay(before, i + 1);
        if i == s {
            let whole = before[s];
            let rest = whole.drop_first();
            lemma_assoc_front(whole);
            lemma_assoc_index(whole, 0);
            assert(overlay(after, i).remove(k) =~= overlay(before, i).remove(k)) by {
                assert forall|x: Seq<u8>| x != k implies #[trigger] oa.contains_key(x)
                    == ob.contains_key(x) && (oa.contains_key(x) ==> oa[x] == ob[x]) by {
                    lemma_remove_agrees(oa, ob, k, x);
                }
            }
        } else {
            assert(after[i] == before[i]);
            assert(overlay(after, i).remove(k) =~= overlay(before, i).remove(k)) by {
                assert forall|x: Seq<u8>| x != k implies #[trigger] oa.contains_key(x)
                    == ob.contains_key(x) && (oa.contains_key(x) ==> oa[x] == ob[x]) by {
                    lemma_remove_agrees(oa, ob, k, x);
                }
            }
        }
    }
}

proof fn lemma_remove_agrees<A>(m: Map<Seq<u8>, A>, n: Map<Seq<u8>, A>, k: Seq<u8>, x: Seq<u8>)
    requires
        m.remove(k) == n.remove(k),
        x != k,
    ensures
        m.contains_key(x) == n.contains_key(x),
        m.contains_key(x) ==> m[x] == n[x],
{
    assert(m.remove(k).dom().contains(x) == m.dom().contains(x));
    assert(n.remove(k).dom().contains(x) == n.dom().contains(x));
    if m.contains_key(x) {
        assert(m.remove(k)[x] == m[x]);
        assert(n.remove(k)[x] == n[x]);
    }
}

proof fn lemma_values_remove(
    m: Map<Seq<u8>, Option<Seq<u8>>>,
    n: Map<Seq<u8>, Option<Seq<u8>>>,
    k: Seq<u8>,
)
    requires
        m.remove(k) == n.remove(k),
    ensures
        values_of(m).remove(k) == values_of(n).remove(k),
{
    let a = values_of(m).remove(k);
    let b = values_of(n).remove(k);
    assert forall|x: Seq<u8>| #[trigger] a.contains_key(x) == b.contains_key(x) && (a.contains_key(
        x,
    ) ==> a[x] == b[x]) by {
        if x != k {
            lemma_remove_agrees(m, n, k, x);
        }
    }
    assert(a =~= b);
}

/// The map of a list whose first pair comes off.
proof fn lemma_assoc_front<A>(s: Seq<(Seq<u8>, A)>)
    requires
        s.len() > 0,
        keys_ascend(s),
    ensures
        assoc(s) == assoc(s.drop_first()).insert(s[0].0, s[0].1),
        !assoc(s.drop_first()).contains_key(s[0].0),
    decreases s.len(),
{
    lemma_lex_order();
    let t = s.drop_first();
    lemma_assoc_contains(t, s[0].0);
    if assoc(t).contains_key(s[0].0) {
        let i = choose|i: int| holds_key(t, s[0].0, i);
        assert(holds_key(t, s[0].0, i));
        assert(t[i] == s[i + 1]);
        assert(lex_lt(s[0].0, s[i + 1].0));
    }
    if s.len() == 1 {
        assert(s.drop_last() =~= Seq::<(Seq<u8>, A)>::empty());
        assert(t =~= Seq::<(Seq<u8>, A)>::empty());
    } else {
        let less = s.drop_last();
        assert forall|a: int, b: int| 0 <= a < b < less.len() implies lex_lt(
            #[trigger] less[a].0,
            #[trigger] less[b].0,
        ) by {
            assert(less[a] == s[a] && less[b] == s[b]);
        }
        lemma_assoc_front(less);
        assert(less.drop_first() =~= t.drop_last());
        assert(t.last() == s.last());
        assert(lex_lt(s[0].0, s[s.len() - 1].0));
        assert(assoc(s) =~= assoc(t).insert(s[0].0, s[0].1));
    }
}

proof fn lemma_none_before_step(
    before: Seq<Seq<(Seq<u8>, Option<Seq<u8>>)>>,
    after: Seq<Seq<(Seq<u8>, Option<Seq<u8>>)>>,
    s: int,
    k: Seq<u8>,
)
    requires
        0 <= s < before.len(),
        before[s].len() > 0,
        after == before.update(s, before[s].drop_first()),
        none_before(before, 0, k),
    ensures
        none_before(after, 0, k),
{
    assert forall|i: int, j: int|
        0 <= i < after.len() && 0 <= j < after[i].len() implies !lex_lt(
        (#[trigger] after[i][j]).0,
        k,
    ) by {
        if i == s {
            assert(after[i][j] == before[i][j + 1]);
        } else {
            assert(after[i][j] == before[i][j]);
        }
    }
}

/// Of several sources the first that has a key decides what shows of it; a tombstone there
/// hides what others have.
pub proof fn law_first_source_decides(
    rests: Seq<Seq<(Seq<u8>, Option<Seq<u8>>)>>,
    from: int,
    i: int,
    j: int,
    k: Seq<u8>,
)
    requires
        0 <= from <= i < rests.len(),
        forall|a: int| 0 <= a < rests.len() ==> keys_ascend(#[trigger] rests[a]),
        0 <= j < rests[i].len(),
        rests[i][j].0 == k,
        forall|a: int, b: int|
            from <= a < i && 0 <= b < rests[a].len() ==> (#[trigger] rests[a][b]).0 != k,
    ensures
        overlay(rests, from).contains_key(k),
        overlay(rests, from)[k] == rests[i][j].1,
        rests[i][j].1 is Some ==> values_of(overlay(rests, from)).contains_key(k)
            && values_of(overlay(rests, from))[k] == rests[i][j].1->0,
        rests[i][j].1 is None ==> !values_of(overlay(rests, from)).contains_key(k),
    decreases i - from,
{
    if from == i {
        assert(keys_ascend(rests[i]));
        lemma_assoc_index(rests[i], j);
    } else {
        law_first_source_decides(rests, from + 1, i, j, k);
        law_last_pair_counts(rests[from], k, -1);
    }
}

/// A key that no source has does not show.
pub proof fn law_absent_key_does_not_show(
    rests: Seq<Seq<(Seq<u8>, Option<Seq<u8>>)>>,
    from: int,
    k: Seq<u8>,
)
    requires
        0 <= from,
        forall|a: int, b: int|
            from <= a < rests.len() && 0 <= b < rests[a].len() ==> (#[trigger] rests[a][b]).0 != k,
    ensures
        !overlay(rests, from).contains_key(k),
        !values_of(overlay(rests, from)).contains_key(k),
    decreases rests.len() - from,
{
    if from < rests.len() {
        law_absent_key_does_not_show(rests, from + 1, k);
        law_last_pair_counts(rests[from], k, -1);
    }
}

/// The items of a source are its keys and values, one by one.
pub proof fn law_items_one_by_one(v: Seq<Item>, i: int)
    requires
        0 <= i < v.len(),
    ensures
        item_pairs(v).len() == v.len(),
        item_pairs(v)[i].0 == v[i].0@,
        item_pairs(v)[i].1 is Some == v[i].2 is Some,
        v[i].2 is Some ==> item_pairs(v)[i].1->0 == v[i].2->0@,
{
}

/// What a reader who is pinned at a number sees of a run are the entries that were written
/// no later, in their order.
pub proof fn law_pinned_reader_sees_no_later_writes(es: Seq<Entry>, max_seq: u64)
    ensures
        entries_upto(es, max_seq) == es.filter(|e: Entry| e.1.seq <= max_seq),
    decreases es.len(),
{
    reveal(Seq::filter);
    if es.len() > 0 {
        law_pinned_reader_sees_no_later_writes(es.drop_last(), max_seq);
    }
}

} // verus!
