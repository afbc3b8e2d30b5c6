//! Reading from the engine.

use crate::bytes::{bytes_lt, copy_bytes, has_prefix, lemma_lex_order, lemma_lex_total, lex_lt,
    starts_with, Model};
use crate::clock::{is_reading, now_ms};
use crate::engine::{LsmEngine, Stats};
use crate::error::EngineError;
use crate::family::{lemma_contents_upto, restrict, CfState, MAX_LEVELS};
use crate::iter::Cursor;
use crate::layers::{in_range, visible_values, Layer};
use crate::manifest::{files_of, recovered_edits};
use crate::memtable::MemEntry;
use crate::recovery::family_ok;
use crate::snapshot::{with_prefix, Snapshot};
use crate::sorted_map::{assoc, holds_key, keys_ascend, lemma_assoc_contains, pairs, SortedMap};
use crate::sstable::SSTable;
use vstd::prelude::*;
use vstd::utf8::encode_utf8;

verus! {

/// What a reader whose clock shows `now` sees of `key`.
pub open spec fn seen(c: Layer, key: Seq<u8>, now: u64) -> Option<Seq<u8>> {
    if c.contains_key(key) {
        c[key].at(now)
    } else {
        None
    }
}

/// The pairs of a map between `from` and `to`.
pub open spec fn between(m: Map<Seq<u8>, Seq<u8>>, from: Seq<u8>, to: Seq<u8>) -> Map<
    Seq<u8>,
    Seq<u8>,
> {
    Map::new(|k: Seq<u8>| m.contains_key(k) && in_range(k, from, to), |k: Seq<u8>| m[k])
}

/// The list has the pairs of the map, in ascending key order.
pub open spec fn lists_map(v: Seq<(Vec<u8>, Vec<u8>)>, m: Map<Seq<u8>, Seq<u8>>) -> bool {
    keys_ascend(pairs(v)) && assoc(pairs(v)) == m
}

/// Names in ascending order of their UTF-8 bytes.
pub open spec fn names_ascend(v: Seq<String>) -> bool {
    forall|i: int, j: int|
        0 <= i < j < v.len() ==> lex_lt(
            encode_utf8((#[trigger] v[i])@),
            encode_utf8((#[trigger] v[j])@),
        )
}

/// The name stands in the list.
pub open spec fn names_hold(v: Seq<String>, name: Seq<char>) -> bool {
    exists|i: int| 0 <= i < v.len() && (#[trigger] v[i])@ == name
}

/// The sum of counts, as far as it can be counted.
pub open spec fn count_sum(v: Seq<usize>) -> nat
    decreases v.len(),
{
    if v.len() == 0 {
        0
    } else {
        let s = count_sum(v.drop_last()) + v.last();
        if s > usize::MAX {
            usize::MAX as nat
        } else {
            s as nat
        }
    }
}

/// What is visible in a range of sorted entries.
fn visible_pairs(map: &SortedMap<MemEntry>, now: u64) -> (r: Vec<(Vec<u8>, Vec<u8>)>)
    requires
        map.wf(),
    ensures
        lists_map(r@, visible_values(map@, now)),
{
    let mut out: SortedMap<Vec<u8>> = SortedMap::new();
    let ghost es = map.pairs();
    let n: usize = map.len();
    let mut i: usize = 0;
    assert(es.take(0) =~= Seq::empty());
    assert(out@ =~= visible_values(assoc(es.take(0)), now));
    while i < n
        invariant
            i <= n,
            n == es.len(),
            es == map.pairs(),
            keys_ascend(es),
            out.wf(),
            out@ == visible_values(assoc(es.take(i as int)), now),
        decreases n - i,
    {
        let ghost before = out@;
        let ghost e = es[i as int];
        proof {
            let t = es.take(i + 1);
            let rest = es.take(i as int);
            assert(t.drop_last() =~= rest);
            assert(t.last() == e);
            if assoc(rest).contains_key(e.0) {
                lemma_assoc_contains(rest, e.0);
                let j = choose|j: int| holds_key(rest, e.0, j);
                assert(holds_key(rest, e.0, j));
                lemma_lex_order();
                assert(lex_lt(es[j].0, es[i as int].0));
            }
            if e.1.visible(now) {
                assert(visible_values(assoc(t), now) =~= before.insert(e.0, e.1.value->0));
            } else {
                assert(visible_values(assoc(t), now) =~= before);
            }
        }
        match map.value_at(i).value_at(now) {
            Some(v) => {
                out.insert(copy_bytes(map.key_at(i).as_slice()), v);
            },
            None => {},
        }
        i = i + 1;
    }
    assert(es.take(n as int) =~= es);
    out.into_entries()
}

/// The pairs whose key begins with `prefix`.
fn prefix_pairs(list: Vec<(Vec<u8>, Vec<u8>)>, prefix: &[u8]) -> (r: Vec<(Vec<u8>, Vec<u8>)>)
    requires
        keys_ascend(pairs(list@)),
    ensures
        lists_map(r@, with_prefix(assoc(pairs(list@)), prefix@)),
{
    let mut out: SortedMap<Vec<u8>> = SortedMap::new();
    let ghost es = pairs(list@);
    let n: usize = list.len();
    let mut i: usize = 0;
    assert(es.take(0) =~= Seq::empty());
    assert(out@ =~= with_prefix(assoc(es.take(0)), prefix@));
    while i < n
        invariant
            i <= n,
            n == list@.len(),
            es == pairs(list@),
            out.wf(),
            out@ == with_prefix(assoc(es.take(i as int)), prefix@),
        decreases n - i,
    {
        let ghost before = out@;
        let ghost e = es[i as int];
        proof {
            let t = es.take(i + 1);
            assert(t.drop_last() =~= es.take(i as int));
            assert(t.last() == e);
            if has_prefix(e.0, prefix@) {
                assert(with_prefix(assoc(t), prefix@) =~= before.insert(e.0, e.1));
            } else {
                assert(with_prefix(assoc(t), prefix@) =~= before);
            }
        }
        if starts_with(list[i].0.as_slice(), prefix) {
            out.insert(copy_bytes(list[i].0.as_slice()), copy_bytes(list[i].1.as_slice()));
        }
        i = i + 1;
    }
    assert(es.take(n as int) =~= es);
    out.into_entries()
}

/// Put a name in its place.
fn insert_name(v: &mut Vec<String>, name: String)
    requires
        names_ascend(old(v)@),
        !names_hold(old(v)@, name@),
    ensures
        names_ascend(final(v)@),
        forall|x: Seq<char>| #[trigger]
            names_hold(final(v)@, x) == (names_hold(old(v)@, x) || x == name@),
{
    let ghost before = v@;
    let mut i: usize = 0;
    while i < v.len() && bytes_lt(v[i].as_str().as_bytes(), name.as_str().as_bytes())
        invariant
            i <= v@.len(),
            v@ == before,
            forall|j: int|
                0 <= j < i ==> lex_lt(encode_utf8((#[trigger] v@[j])@), encode_utf8(name@)),
        decreases v@.len() - i,
    {
        i = i + 1;
    }
    let ghost n = name;
    v.insert(i, name);
    proof {
        lemma_lex_order();
        let after = v@;
        assert forall|a: int, b: int| 0 <= a < b < after.len() implies lex_lt(
            encode_utf8((#[trigger] after[a])@),
            encode_utf8((#[trigger] after[b])@),
        ) by {
            if b < i {
                assert(after[a] == before[a] && after[b] == before[b]);
            } else if b == i {
                assert(after[a] == before[a]);
            } else {
                assert(after[b] == before[b - 1]);
                // the name comes before what stood at its place
                assert(lex_lt(encode_utf8(n@), encode_utf8(before[i as int]@))) by {
                    lemma_lex_total(encode_utf8(n@), encode_utf8(before[i as int]@));
                    if encode_utf8(n@) == encode_utf8(before[i as int]@) {
                        vstd::utf8::encode_utf8_decode_utf8(n@);
                        vstd::utf8::encode_utf8_decode_utf8(before[i as int]@);
                        assert(names_hold(before, n@));
                    }
                }
                if a < i {
                    assert(after[a] == before[a]);
                } else if a == i {
                    if b - 1 > i {
                        assert(lex_lt(
                            encode_utf8(before[i as int]@),
                            encode_utf8(before[b - 1]@),
                        ));
                    }
                } else {
                    assert(after[a] == before[a - 1]);
                }
            }
        }
        assert forall|x: Seq<char>| #[trigger] names_hold(after, x) == (names_hold(before, x) || x
            == n@) by {
            if names_hold(after, x) {
                let a = choose|a: int| 0 <= a < after.len() && (#[trigger] after[a])@ == x;
                if a < i {
                    assert(before[a]@ == x);
                } else if a > i {
                    assert(before[a - 1]@ == x);
                }
            }
            if names_hold(before, x) {
                let a = choose|a: int| 0 <= a < before.len() && (#[trigger] before[a])@ == x;
                if a < i {
                    assert(after[a]@ == x);
                } else {
                    assert(after[a + 1]@ == x);
                }
            }
            if x == n@ {
                assert(after[i as int]@ == x);
            }
        }
    }
}

impl LsmEngine {
    pub(super) proof fn lemma_family(&self, i: int)
        requires
            self.wf(),
            0 <= i < self.families@.len(),
        ensures
            self.families@[i].wf(),
            self.family(self.families@[i].name@) == self.families@[i],
            self.contents(self.families@[i].name@) == self.families@[i].contents(),
            self.families@[i].contents_upto((self.write_seq - 1) as u64)
                == self.families@[i].contents(),
            self.families@[i].contents_upto(u64::MAX) == self.families@[i].contents(),
            self.write_seq >= 1,
    {
        let cf = self.families@[i];
        self.lemma_at(i);
        assert(family_ok(
            cf,
            self.disk(),
            files_of(recovered_edits(self.manifest@), cf.name@),
            self.write_seq,
            self.next_file,
        ));
        lemma_contents_upto(&cf, (self.write_seq - 1) as u64);
        lemma_contents_upto(&cf, u64::MAX);
    }

    /// What is last written to `key` of the column family `cf`, as a reader sees it
    /// whose clock shows `now`.
    pub fn get_cf_at(&self, cf: &str, key: &[u8], now: u64) -> (r: Result<
        Option<Vec<u8>>,
        EngineError,
    >)
        requires
            self.wf(),
        ensures
            match r {
                Ok(v) => self.has_cf(cf@) && !self.hides(cf@, key@) && v.model() == seen(self.contents(cf@), key@, now),
                Err(e) => self.fails_with(e, cf@, self.hides(cf@, key@)),
            },
    {
        match self.find(cf) {
            Some(i) => {
                proof {
                    self.lemma_family(i as int);
                }
                match self.families[i].lookup(key) {
                    Ok(Some(e)) => Ok(e.value_at(now)),
                    Ok(None) => Ok(None),
                    Err(e) => Err(e),
                }
            },
            None => Err(EngineError::NotFound),
        }
    }

    /// What is last written to `key` of the column family `cf`, unless it has
    /// expired by now.
    pub fn get_cf(&self, cf: &str, key: &[u8]) -> (r: Result<Option<Vec<u8>>, EngineError>)
        requires
            self.wf(),
        ensures
            match r {
                Ok(v) => self.has_cf(cf@) && !self.hides(cf@, key@) && exists|now: u64|
                    is_reading(now) && v.model() == #[trigger] seen(self.contents(cf@), key@, now),
                Err(e) => self.fails_with(e, cf@, self.hides(cf@, key@)),
            },
    {
        self.get_cf_at(cf, key, now_ms())
    }

    /// What is last written to `key` of the column family `default`, unless it has
    /// expired by now.
    pub fn get(&self, key: &[u8]) -> (r: Result<Option<Vec<u8>>, EngineError>)
        requires
            self.wf(),
        ensures
            match r {
                Ok(v) => self.has_cf("default"@) && !self.hides("default"@, key@) && exists|now: u64|
                    is_reading(now) && v.model() == #[trigger] seen(self.contents("default"@), key@, now),
                Err(e) => self.fails_with(e, "default"@, self.hides("default"@, key@)),
            },
    {
        self.get_cf("default", key)
    }

    /// The pairs of the column family `cf` with keys from `from` up to, not
    /// including, `to`, as a reader sees them whose clock shows `now`.
    pub fn scan_cf_at(&self, cf: &str, from: &[u8], to: &[u8], now: u64) -> (r: Result<
        Vec<(Vec<u8>, Vec<u8>)>,
        EngineError,
    >)
        requires
            self.wf(),
        ensures
            match r {
                Ok(v) => self.has_cf(cf@) && !self.is_damaged(cf@) && lists_map(
                    v@,
                    between(visible_values(self.contents(cf@), now), from@, to@),
                ),
                Err(e) => self.fails_with(e, cf@, self.is_damaged(cf@)),
            },
    {
        match self.find(cf) {
            Some(i) => {
                proof {
                    self.lemma_family(i as int);
                    let c = self.contents(cf@);
                    assert(visible_values(restrict(c, from@, to@), now) =~= between(
                        visible_values(c, now),
                        from@,
                        to@,
                    ));
                }
                if self.families[i].check_damage() {
                    return Err(EngineError::InvalidData);
                }
                let map: SortedMap<MemEntry> = self.families[i].range_map(from, to);
                Ok(visible_pairs(&map, now))
            },
            None => Err(EngineError::NotFound),
        }
    }

    /// The pairs of the column family `cf` with keys from `from` up to, not
    /// including, `to` that have not expired by now.
    pub fn scan_cf(&self, cf: &str, from: &[u8], to: &[u8]) -> (r: Result<
        Vec<(Vec<u8>, Vec<u8>)>,
        EngineError,
    >)
        requires
            self.wf(),
        ensures
            match r {
                Ok(v) => self.has_cf(cf@) && !self.is_damaged(cf@) && exists|now: u64|
                    is_reading(now) && lists_map(
                        v@,
                        between(#[trigger] visible_values(self.contents(cf@), now), from@, to@),
                    ),
                Err(e) => self.fails_with(e, cf@, self.is_damaged(cf@)),
            },
    {
        self.scan_cf_at(cf, from, to, now_ms())
    }

    /// The pairs of the column family `default` with keys from `from` up to, not
    /// including, `to` that have not expired by now.
    pub fn scan(&self, from: &[u8], to: &[u8]) -> (r: Result<Vec<(Vec<u8>, Vec<u8>)>, EngineError>)
        requires
            self.wf(),
        ensures
            match r {
                Ok(v) => self.has_cf("default"@) && !self.is_damaged("default"@) && exists|now: u64|
                    is_reading(now) && lists_map(
                        v@,
                        between(
                            #[trigger] visible_values(self.contents("default"@), now),
                            from@,
                            to@,
                        ),
                    ),
                Err(e) => self.fails_with(e, "default"@, self.is_damaged("default"@)),
            },
    {
        self.scan_cf("default", from, to)
    }

    /// A cursor over the column family `cf`, as a reader sees it whose clock shows
    /// `now`.
    pub fn iter_cf_at(&self, cf: &str, now: u64) -> (r: Result<Cursor, EngineError>)
        requires
            self.wf(),
        ensures
            match r {
                Ok(c) => self.has_cf(cf@) && !self.is_damaged(cf@) && c.wf() && c@ == visible_values(
                    self.contents(cf@),
                    now,
                ),
                Err(e) => self.fails_with(e, cf@, self.is_damaged(cf@)),
            },
    {
        match self.find(cf) {
            Some(i) => {
                proof {
                    self.lemma_family(i as int);
                }
                if self.families[i].check_damage() {
                    return Err(EngineError::InvalidData);
                }
                Ok(self.families[i].cursor(u64::MAX, now))
            },
            None => Err(EngineError::NotFound),
        }
    }

    /// A cursor over what has not expired by now of the column family `cf`.
    pub fn iter_cf(&self, cf: &str) -> (r: Result<Cursor, EngineError>)
        requires
            self.wf(),
        ensures
            match r {
                Ok(c) => self.has_cf(cf@) && !self.is_damaged(cf@) && c.wf() && exists|now: u64|
                    is_reading(now) && c@ == #[trigger] visible_values(self.contents(cf@), now),
                Err(e) => self.fails_with(e, cf@, self.is_damaged(cf@)),
            },
    {
        self.iter_cf_at(cf, now_ms())
    }

    /// A cursor over what has not expired by now of the column family `default`.
    pub fn iter(&self) -> (r: Result<Cursor, EngineError>)
        requires
            self.wf(),
        ensures
            match r {
                Ok(c) => self.has_cf("default"@) && !self.is_damaged("default"@) && c.wf() && exists|now: u64|
                    is_reading(now) && c@ == #[trigger] visible_values(self.contents("default"@), now),
                Err(e) => self.fails_with(e, "default"@, self.is_damaged("default"@)),
            },
    {
        self.iter_cf("default")
    }

    /// The pairs of the column family `cf` whose key begins with `prefix`, as a
    /// reader sees them whose clock shows `now`.
    pub fn scan_prefix_cf_at(&self, cf: &str, prefix: &[u8], now: u64) -> (r: Result<
        Vec<(Vec<u8>, Vec<u8>)>,
        EngineError,
    >)
        requires
            self.wf(),
        ensures
            match r {
                Ok(v) => self.has_cf(cf@) && !self.is_damaged(cf@) && lists_map(
                    v@,
                    with_prefix(visible_values(self.contents(cf@), now), prefix@),
                ),
                Err(e) => self.fails_with(e, cf@, self.is_damaged(cf@)),
            },
    {
        match self.iter_cf_at(cf, now) {
            Ok(cursor) => {
                let all: Vec<(Vec<u8>, Vec<u8>)> = cursor.collect();
                Ok(prefix_pairs(all, prefix))
            },
            Err(e) => Err(e),
        }
    }

    /// The pairs of the column family `cf` whose key begins with `prefix` that have
    /// not expired by now.
    pub fn scan_prefix_cf(&self, cf: &str, prefix: &[u8]) -> (r: Result<
        Vec<(Vec<u8>, Vec<u8>)>,
        EngineError,
    >)
        requires
            self.wf(),
        ensures
            match r {
                Ok(v) => self.has_cf(cf@) && !self.is_damaged(cf@) && exists|now: u64|
                    is_reading(now) && lists_map(
                        v@,
                        with_prefix(#[trigger] visible_values(self.contents(cf@), now), prefix@),
                    ),
                Err(e) => self.fails_with(e, cf@, self.is_damaged(cf@)),
            },
    {
        self.scan_prefix_cf_at(cf, prefix, now_ms())
    }

    /// The pairs of the column family `default` whose key begins with `prefix` that
    /// have not expired by now.
    pub fn scan_prefix(&self, prefix: &[u8]) -> (r: Result<Vec<(Vec<u8>, Vec<u8>)>, EngineError>)
        requires
            self.wf(),
        ensures
            match r {
                Ok(v) => self.has_cf("default"@) && !self.is_damaged("default"@) && exists|now: u64|
                    is_reading(now) && lists_map(
                        v@,
                        with_prefix(
                            #[trigger] visible_values(self.contents("default"@), now),
                            prefix@,
                        ),
                    ),
                Err(e) => self.fails_with(e, "default"@, self.is_damaged("default"@)),
            },
    {
        self.scan_prefix_cf("default", prefix)
    }

    /// A snapshot of the column family `cf`, as a reader sees it whose clock shows
    /// `now`.
    pub fn snapshot_cf_at(&self, cf: &str, now: u64) -> (r: Result<Snapshot, EngineError>)
        requires
            self.wf(),
        ensures
            match r {
                Ok(s) => {
                    &&& self.has_cf(cf@)
                    &&& !self.is_damaged(cf@)
                    &&& s.wf()
                    &&& s.pinned() + 1 == self.next_seq()
                    &&& s@ == visible_values(self.contents(cf@), now)
                },
                Err(e) => self.fails_with(e, cf@, self.is_damaged(cf@)),
            },
    {
        match self.find(cf) {
            Some(i) => {
                proof {
                    self.lemma_family(i as int);
                }
                if self.families[i].check_damage() {
                    return Err(EngineError::InvalidData);
                }
                let seq: u64 = self.write_seq - 1;
                let mut cursor: Cursor = self.families[i].cursor(seq, now);
                let ghost all = cursor@;
                let mut data: SortedMap<Vec<u8>> = SortedMap::new();
                assert(data@.union_prefer_right(all) =~= all);
                loop
                    invariant
                        cursor.wf(),
                        data.wf(),
                        all == data@.union_prefer_right(cursor@),
                    ensures
                        data.wf(),
                        all == data@,
                    decreases cursor.remaining(),
                {
                    let ghost before = data@;
                    let ghost left = cursor@;
                    match cursor.next() {
                        Some((k, v)) => {
                            let ghost key = k@;
                            let ghost value = v@;
                            data.insert(k, v);
                            assert(data@.union_prefer_right(cursor@) =~= before.union_prefer_right(
                                left,
                            ));
                        },
                        None => {
                            assert(before.union_prefer_right(left) =~= before);
                            break;
                        },
                    }
                }
                Ok(Snapshot::new(seq, data))
            },
            None => Err(EngineError::NotFound),
        }
    }

    /// A snapshot of what has not expired by now of the column family `cf`.
    pub fn snapshot_cf(&self, cf: &str) -> (r: Result<Snapshot, EngineError>)
        requires
            self.wf(),
        ensures
            match r {
                Ok(s) => {
                    &&& self.has_cf(cf@)
                    &&& !self.is_damaged(cf@)
                    &&& s.wf()
                    &&& s.pinned() + 1 == self.next_seq()
                    &&& exists|now: u64| is_reading(now) && s@ == #[trigger] visible_values(self.contents(cf@), now)
                },
                Err(e) => self.fails_with(e, cf@, self.is_damaged(cf@)),
            },
    {
        self.snapshot_cf_at(cf, now_ms())
    }

    /// A snapshot of what has not expired by now of the column family `default`.
    pub fn snapshot(&self) -> (r: Result<Snapshot, EngineError>)
        requires
            self.wf(),
        ensures
            match r {
                Ok(s) => {
                    &&& self.has_cf("default"@)
                    &&& !self.is_damaged("default"@)
                    &&& s.wf()
                    &&& s.pinned() + 1 == self.next_seq()
                    &&& exists|now: u64|
                        is_reading(now) && s@ == #[trigger] visible_values(self.contents("default"@), now)
                },
                Err(e) => self.fails_with(e, "default"@, self.is_damaged("default"@)),
            },
    {
        self.snapshot_cf("default")
    }

    /// The sequence number of the last write to `key`. A deletion is a write too, also
    /// where a compaction has dropped its tombstone since the engine was opened.
    pub fn key_write_seq(&self, cf: &str, key: &[u8]) -> (r: Result<Option<u64>, EngineError>)
        requires
            self.wf(),
        ensures
            match r {
                Ok(v) => self.has_cf(cf@) && !self.hides(cf@, key@) && v == (if self.history(cf@).contains_key(key@) {
                    Some(self.history(cf@)[key@].seq)
                } else {
                    None
                }),
                Err(e) => self.fails_with(e, cf@, self.hides(cf@, key@)),
            },
    {
        match self.find(cf) {
            Some(i) => {
                proof {
                    self.lemma_family(i as int);
                    self.lemma_at(i as int);
                }
                match self.families[i].last_write(key) {
                    Ok(Some(e)) => Ok(Some(e.seq)),
                    Ok(None) => Ok(None),
                    Err(e) => Err(e),
                }
            },
            None => Err(EngineError::NotFound),
        }
    }

    /// The names of all column families, in ascending order.
    pub fn list_cfs(&self) -> (r: Vec<String>)
        requires
            self.wf(),
        ensures
            names_ascend(r@),
            forall|name: Seq<char>| #[trigger] names_hold(r@, name) == self.has_cf(name),
    {
        let mut r: Vec<String> = Vec::new();
        let mut i: usize = 0;
        while i < self.families.len()
            invariant
                self.wf(),
                i <= self.families@.len(),
                names_ascend(r@),
                forall|name: Seq<char>| #[trigger]
                    names_hold(r@, name) == self.families().take(i as int).contains(name),
            decreases self.families@.len() - i,
        {
            let ghost before = r@;
            let ghost name = self.families@[i as int].name@;
            proof {
                let t = self.families().take(i as int);
                if t.contains(name) {
                    let j = choose|j: int| 0 <= j < t.len() && t[j] == name;
                    assert(self.families@[j].name@ == name);
                    assert(self.families@[j].name@ != self.families@[i as int].name@);
                }
                assert(!names_hold(before, name));
            }
            insert_name(&mut r, self.families[i].name.clone());
            proof {
                let t = self.families().take(i as int);
                let u = self.families().take(i + 1);
                assert(u =~= t.push(name));
                assert forall|x: Seq<char>| #[trigger] names_hold(r@, x) == u.contains(x) by {
                    assert(names_hold(before, x) == t.contains(x));
                    if u.contains(x) {
                        let j = choose|j: int| 0 <= j < u.len() && u[j] == x;
                        if j < i {
                            assert(t[j] == x);
                        }
                    }
                    if t.contains(x) {
                        let j = choose|j: int| 0 <= j < t.len() && t[j] == x;
                        assert(u[j] == x);
                    }
                    if x == name {
                        assert(u[i as int] == x);
                    }
                }
            }
            i = i + 1;
        }
        proof {
            assert(self.families().take(i as int) =~= self.families());
        }
        r
    }

    /// The bytes that wait in the memtable of a column family.
    pub open spec fn mem_bytes(&self, cf: Seq<char>) -> nat {
        self.family(cf).mem.size()
    }

    /// How many tables each level of a column family has.
    pub open spec fn level_counts(&self, cf: Seq<char>) -> Seq<nat> {
        self.family(cf).levels@.map_values(|l: Vec<SSTable>| l@.len())
    }

    /// Counts of one column family, if there is such a family.
    pub fn stats_cf(&self, cf: &str) -> (r: Option<Stats>)
        requires
            self.wf(),
        ensures
            match r {
                Some(s) => self.has_cf(cf@) && self.is_stats(s, cf@),
                None => !self.has_cf(cf@),
            },
    {
        match self.find(cf) {
            Some(i) => {
                proof {
                    self.lemma_family(i as int);
                    self.lemma_at(i as int);
                }
                let fam: &CfState = &self.families[i];
                let mut counts: Vec<usize> = Vec::new();
                let mut total: usize = 0;
                let mut l: usize = 0;
                while l < fam.levels.len()
                    invariant
                        l <= fam.levels@.len(),
                        counts@.len() == l,
                        forall|j: int| 0 <= j < l ==> (#[trigger] counts@[j]) == fam.levels@[j]@.len(),
                        total == count_sum(counts@),
                    decreases fam.levels@.len() - l,
                {
                    let ghost before = counts@;
                    let n: usize = fam.levels[l].len();
                    counts.push(n);
                    assert(counts@.drop_last() =~= before);
                    total = total.saturating_add(n);
                    l = l + 1;
                }
                let s: Stats = Stats {
                    mem_table_size_bytes: fam.mem.size_bytes(),
                    immutable_count: fam.imm.len(),
                    level_file_counts: counts,
                    total_ss_table_files: total,
                    column_families: self.list_cfs(),
                };
                assert(s.level_file_counts@.map_values(|n: usize| n as nat) =~= self.level_counts(
                    cf@,
                ));
                Some(s)
            },
            None => None,
        }
    }

    /// Counts of the column family `default`; all 0 if there is no such family.
    pub fn stats(&self) -> (r: Stats)
        requires
            self.wf(),
        ensures
            self.has_cf("default"@) ==> self.is_stats(r, "default"@),
            !self.has_cf("default"@) ==> {
                &&& r.mem_table_size_bytes == 0
                &&& r.immutable_count == 0
                &&& r.level_file_counts@ == Seq::new(MAX_LEVELS as nat, |i: int| 0usize)
                &&& r.total_ss_table_files == 0
                &&& names_ascend(r.column_families@)
                &&& forall|name: Seq<char>| #[trigger]
                    names_hold(r.column_families@, name) == self.has_cf(name)
            },
    {
        match self.stats_cf("default") {
            Some(s) => s,
            None => {
                let counts: Vec<usize> = vec![0, 0, 0, 0, 0, 0, 0];
                assert(counts@ =~= Seq::new(MAX_LEVELS as nat, |i: int| 0usize));
                Stats {
                    mem_table_size_bytes: 0,
                    immutable_count: 0,
                    level_file_counts: counts,
                    total_ss_table_files: 0,
                    column_families: self.list_cfs(),
                }
            },
        }
    }

    /// `s` has the counts of the column family `cf`.
    pub open spec fn is_stats(&self, s: Stats, cf: Seq<char>) -> bool {
        &&& s.mem_table_size_bytes == self.mem_bytes(cf)
        &&& s.immutable_count == 0
        &&& s.level_file_counts@.map_values(|n: usize| n as nat) == self.level_counts(cf)
        &&& s.total_ss_table_files == count_sum(s.level_file_counts@)
        &&& names_ascend(s.column_families@)
        &&& forall|name: Seq<char>| #[trigger]
            names_hold(s.column_families@, name) == self.has_cf(name)
    }
}

} // verus!
