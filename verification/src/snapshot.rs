//! Consistent reads of a moment in time, and writes that take effect together.
//!
//! Every write has a sequence number. A snapshot shows what was written up to the
//! number that it was taken at, whatever is written later. All entries of a batch
//! get the same number, so a snapshot shows all of them or none.

use crate::bytes::{bytes_eq, copy_bytes, has_prefix, lemma_lex_irreflexive, lex_lt, starts_with,
    Model};
use crate::layers::Layer;
use crate::recovery::written;
use crate::sorted_map::{assoc, holds_key, keys_ascend, lemma_assoc_contains, pairs, SortedMap};
use crate::wal::{fits, Record};
use vstd::prelude::*;

verus! {

// ---- snapshots -----------------------------------------------------------------

/// A frozen view of one column family.
pub struct Snapshot {
    seq: u64,
    data: SortedMap<Vec<u8>>,
}

/// The pairs of a map whose key begins with `prefix`.
pub open spec fn with_prefix(m: Map<Seq<u8>, Seq<u8>>, prefix: Seq<u8>) -> Map<Seq<u8>, Seq<u8>> {
    Map::new(|k: Seq<u8>| m.contains_key(k) && has_prefix(k, prefix), |k: Seq<u8>| m[k])
}

impl View for Snapshot {
    type V = Map<Seq<u8>, Seq<u8>>;

    closed spec fn view(&self) -> Map<Seq<u8>, Seq<u8>> {
        self.data@
    }
}

impl Snapshot {
    /// The keys are in ascending order.
    pub closed spec fn wf(&self) -> bool {
        self.data.wf()
    }

    /// The sequence number that the snapshot was taken at.
    pub closed spec fn pinned(&self) -> u64 {
        self.seq
    }

    /// A snapshot of the given pairs.
    pub fn new(seq: u64, data: SortedMap<Vec<u8>>) -> (r: Snapshot)
        requires
            data.wf(),
        ensures
            r.wf(),
            r.pinned() == seq,
            r@ == data@,
    {
        Snapshot { seq, data }
    }

    /// The sequence number that the snapshot was taken at.
    pub fn seq(&self) -> (r: u64)
        ensures
            r == self.pinned(),
    {
        self.seq
    }

    /// The value of `key`.
    pub fn get(&self, key: &[u8]) -> (r: Option<&[u8]>)
        requires
            self.wf(),
        ensures
            match r {
                Some(v) => self@.contains_key(key@) && v@ == self@[key@],
                None => !self@.contains_key(key@),
            },
    {
        match self.data.get(key) {
            Some(v) => Some(v.as_slice()),
            None => None,
        }
    }

    /// All pairs, in ascending key order.
    pub fn iter(&self) -> (r: Vec<(&Vec<u8>, &Vec<u8>)>)
        requires
            self.wf(),
        ensures
            keys_ascend(r@.map_values(|e: (&Vec<u8>, &Vec<u8>)| (e.0@, e.1@))),
            assoc(r@.map_values(|e: (&Vec<u8>, &Vec<u8>)| (e.0@, e.1@))) == self@,
    {
        let mut r: Vec<(&Vec<u8>, &Vec<u8>)> = Vec::new();
        let n: usize = self.data.len();
        let mut i: usize = 0;
        while i < n
            invariant
                i <= n,
                n == self.data.pairs().len(),
                r@.len() == i,
                forall|j: int|
                    0 <= j < i ==> ((#[trigger] r@[j]).0@, r@[j].1@) == self.data.pairs()[j],
            decreases n - i,
        {
            r.push((self.data.key_at(i), self.data.value_at(i)));
            i = i + 1;
        }
        assert(r@.map_values(|e: (&Vec<u8>, &Vec<u8>)| (e.0@, e.1@)) =~= self.data.pairs());
        r
    }

    /// The pairs whose key begins with `prefix`, in ascending key order.
    pub fn scan_prefix(&self, prefix: &[u8]) -> (r: Vec<(Vec<u8>, Vec<u8>)>)
        requires
            self.wf(),
        ensures
            keys_ascend(pairs(r@)),
            assoc(pairs(r@)) == with_prefix(self@, prefix@),
    {
        let mut out: SortedMap<Vec<u8>> = SortedMap::new();
        let ghost es = self.data.pairs();
        let n: usize = self.data.len();
        let mut i: usize = 0;
        assert(es.take(0) =~= Seq::<(Seq<u8>, Seq<u8>)>::empty());
        assert(out@ =~= with_prefix(assoc(es.take(0)), prefix@));
        while i < n
            invariant
                i <= n,
                n == es.len(),
                es == self.data.pairs(),
                keys_ascend(es),
                out.wf(),
                out@ == with_prefix(assoc(es.take(i as int)), prefix@),
            decreases n - i,
        {
            let ghost before = out@;
            proof {
                let t = es.take(i + 1);
                assert(t.drop_last() =~= es.take(i as int));
                assert(t.last() == es[i as int]);
                if has_prefix(es[i as int].0, prefix@) {
                    assert(with_prefix(assoc(t), prefix@) =~= before.insert(
                        es[i as int].0,
                        es[i as int].1,
                    ));
                } else {
                    let rest = es.take(i as int);
                    if assoc(rest).contains_key(es[i as int].0) {
                        lemma_assoc_contains(rest, es[i as int].0);
                        let j = choose|j: int| holds_key(rest, es[i as int].0, j);
                        assert(holds_key(rest, es[i as int].0, j));
                    }
                    assert(with_prefix(assoc(t), prefix@) =~= before);
                }
            }
            if starts_with(self.data.key_at(i).as_slice(), prefix) {
                out.insert(
                    copy_bytes(self.data.key_at(i).as_slice()),
                    copy_bytes(self.data.value_at(i).as_slice()),
                );
            }
            i = i + 1;
        }
        assert(es.take(n as int) =~= es);
        out.into_entries()
    }

    /// How many keys there are.
    pub fn key_count(&self) -> (r: usize)
        requires
            self.wf(),
        ensures
            r == self@.dom().len(),
            self@.dom().finite(),
    {
        proof {
            lemma_assoc_len(self.data.pairs());
        }
        self.data.len()
    }
}

/// A map has as many keys as an ascending list of its pairs has pairs.
pub proof fn lemma_assoc_len<A>(p: Seq<(Seq<u8>, A)>)
    requires
        keys_ascend(p),
    ensures
        assoc(p).dom().finite(),
        assoc(p).dom().len() == p.len(),
    decreases p.len(),
{
    if p.len() == 0 {
        assert(assoc(p).dom() =~= Set::empty());
    } else {
        let less = p.drop_last();
        lemma_assoc_len(less);
        if assoc(less).contains_key(p.last().0) {
            lemma_assoc_contains(less, p.last().0);
            let i = choose|i: int| holds_key(less, p.last().0, i);
            assert(holds_key(less, p.last().0, i));
            lemma_lex_irreflexive(p.last().0);
            assert(lex_lt(p[i].0, p[p.len() - 1].0));
        }
        assert(assoc(p).dom() =~= assoc(less).dom().insert(p.last().0));
    }
}

// ---- batches -------------------------------------------------------------------

/// An entry of a batch: a column family, a key, and a value or a deletion.
pub type BatchEntry = (Seq<char>, Seq<u8>, Option<Seq<u8>>);

/// The record that an entry is logged as.
pub open spec fn batch_record(e: BatchEntry, seq: u64) -> Record {
    match e.2 {
        Some(value) => Record::Put { key: e.1, seq, value },
        None => Record::Delete { key: e.1, seq },
    }
}

/// What a column family holds after the entries of a batch that concern it.
pub open spec fn batch_written(c: Layer, es: Seq<BatchEntry>, cf: Seq<char>, seq: u64) -> Layer
    decreases es.len(),
{
    if es.len() == 0 {
        c
    } else {
        let before = batch_written(c, es.drop_last(), cf, seq);
        if es.last().0 == cf {
            written(before, batch_record(es.last(), seq))
        } else {
            before
        }
    }
}

/// The last entry of a batch for a key of a column family.
pub open spec fn last_entry(es: Seq<BatchEntry>, cf: Seq<char>, key: Seq<u8>) -> Option<BatchEntry>
    decreases es.len(),
{
    if es.len() == 0 {
        None
    } else if es.last().0 == cf && es.last().1 == key {
        Some(es.last())
    } else {
        last_entry(es.drop_last(), cf, key)
    }
}

/// Every entry can be logged.
pub open spec fn batch_fits(es: Seq<BatchEntry>) -> bool {
    forall|i: int| 0 <= i < es.len() ==> fits(batch_record(#[trigger] es[i], 0))
}

/// Writes to be made together.
pub struct WriteBatch {
    entries: Vec<(String, Vec<u8>, Option<Vec<u8>>)>,
}

/// Entries as mathematical values.
pub open spec fn batch_views(v: Seq<(String, Vec<u8>, Option<Vec<u8>>)>) -> Seq<BatchEntry> {
    v.map_values(|e: (String, Vec<u8>, Option<Vec<u8>>)| (e.0@, e.1@, e.2.model()))
}

impl View for WriteBatch {
    type V = Seq<BatchEntry>;

    closed spec fn view(&self) -> Seq<BatchEntry> {
        batch_views(self.entries@)
    }
}

impl WriteBatch {
    /// An empty batch.
    pub fn new() -> (r: WriteBatch)
        ensures
            r@ == Seq::<BatchEntry>::empty(),
    {
        let r: WriteBatch = WriteBatch { entries: Vec::new() };
        assert(r@ =~= Seq::<BatchEntry>::empty());
        r
    }

    /// Add a put.
    pub fn put(&mut self, cf: &str, key: Vec<u8>, value: Vec<u8>) -> (r: &mut WriteBatch)
        ensures
            r@ == old(self)@.push((cf@, key@, Some(value@))),
            *final(self) == *final(r),
    {
        let ghost before = self@;
        let ghost e = (cf@, key@, Some(value@));
        self.entries.push((cf.to_owned(), key, Some(value)));
        assert(self@ =~= before.push(e));
        self
    }

    /// Add a deletion.
    pub fn delete(&mut self, cf: &str, key: Vec<u8>) -> (r: &mut WriteBatch)
        ensures
            r@ == old(self)@.push((cf@, key@, None)),
            *final(self) == *final(r),
    {
        let ghost before = self@;
        let ghost e = (cf@, key@, None::<Seq<u8>>);
        self.entries.push((cf.to_owned(), key, None));
        assert(self@ =~= before.push(e));
        self
    }

    /// How many entries there are.
    pub fn len(&self) -> (r: usize)
        ensures
            r == self@.len(),
    {
        self.entries.len()
    }

    /// Whether there are no entries.
    pub fn is_empty(&self) -> (r: bool)
        ensures
            r == (self@.len() == 0),
    {
        self.entries.len() == 0
    }

    /// What the last entry for a key of a column family writes, if there is one.
    pub fn last_write(&self, cf: &str, key: &[u8]) -> (r: Option<&Option<Vec<u8>>>)
        ensures
            match last_entry(self@, cf@, key@) {
                Some(e) => r matches Some(v) && v.model() == e.2,
                None => r is None,
            },
    {
        let ghost es = self@;
        let name: String = cf.to_owned();
        let mut i: usize = self.entries.len();
        assert(es.take(i as int) =~= es);
        while i > 0
            invariant
                i <= self.entries@.len(),
                es == self@,
                name@ == cf@,
                last_entry(es, cf@, key@) == last_entry(es.take(i as int), cf@, key@),
            decreases i,
        {
            i = i - 1;
            proof {
                let t = es.take(i + 1);
                assert(t.drop_last() =~= es.take(i as int));
                assert(t.last() == es[i as int]);
            }
            if self.entries[i].0 == name && bytes_eq(self.entries[i].1.as_slice(), key) {
                return Some(&self.entries[i].2);
            }
        }
        None
    }

    /// The column family of an entry.
    pub fn cf_at(&self, i: usize) -> (r: &String)
        requires
            i < self@.len(),
        ensures
            r@ == self@[i as int].0,
    {
        &self.entries[i].0
    }

    /// The key of an entry.
    pub fn key_at(&self, i: usize) -> (r: &Vec<u8>)
        requires
            i < self@.len(),
        ensures
            r@ == self@[i as int].1,
    {
        &self.entries[i].1
    }

    /// The value of an entry, unless it is a deletion.
    pub fn value_at(&self, i: usize) -> (r: &Option<Vec<u8>>)
        requires
            i < self@.len(),
        ensures
            r.model() == self@[i as int].2,
    {
        &self.entries[i].2
    }
}

impl Default for WriteBatch {
    fn default() -> (r: WriteBatch)
        ensures
            r@ == Seq::<BatchEntry>::empty(),
    {
        WriteBatch::new()
    }
}

// ---- laws ----------------------------------------------------------------------

/// The last entry of a batch for a key is the one that no other entry for it follows; there
/// is none where no entry is for the key.
pub proof fn law_last_entry_is_last(es: Seq<BatchEntry>, cf: Seq<char>, key: Seq<u8>, i: int)
    requires
        -1 <= i < es.len(),
        i >= 0 ==> es[i].0 == cf && es[i].1 == key,
        forall|j: int| i < j < es.len() ==> (#[trigger] es[j]).0 != cf || es[j].1 != key,
    ensures
        last_entry(es, cf, key) == (if i >= 0 {
            Some(es[i])
        } else {
            None
        }),
    decreases es.len(),
{
    if i < es.len() - 1 {
        let less = es.drop_last();
        assert(es[es.len() - 1].0 != cf || es[es.len() - 1].1 != key);
        assert forall|j: int| i < j < less.len() implies (#[trigger] less[j]).0 != cf || less[j].1
            != key by {
            assert(less[j] == es[j]);
        }
        law_last_entry_is_last(less, cf, key, i);
    }
}

/// A batch whose keys and values are shorter than four gigabytes can be written.
pub proof fn law_which_batches_fit(es: Seq<BatchEntry>)
    requires
        forall|i: int|
            0 <= i < es.len() ==> (#[trigger] es[i]).1.len() < 0x1_0000_0000 && (es[i].2 is Some
                ==> es[i].2->0.len() < 0x1_0000_0000),
    ensures
        batch_fits(es),
{
}

/// The entries of a batch as mathematical values are its entries, one by one.
pub proof fn law_batch_views(v: Seq<(String, Vec<u8>, Option<Vec<u8>>)>, i: int)
    requires
        0 <= i < v.len(),
    ensures
        batch_views(v).len() == v.len(),
        batch_views(v)[i].0 == v[i].0@,
        batch_views(v)[i].1 == v[i].1@,
        batch_views(v)[i].2 is Some == v[i].2 is Some,
        v[i].2 is Some ==> batch_views(v)[i].2->0 == v[i].2->0@,
{
}

} // verus!
