//! A sorted write buffer without sequence numbers.

use crate::bytes::Model;
use crate::memtable::size_sum;
use crate::sorted_map::{assoc, keys_ascend, lemma_assoc_index, SortedMap};
use vstd::prelude::*;

verus! {

/// A value, or that the key was deleted.
pub type MemValue = Option<Vec<u8>>;

/// A sorted write buffer that counts the bytes written to it.
pub struct MemTable {
    data: SortedMap<MemValue>,
    pub size_bytes: usize,
}

impl MemTable {
    /// What was last written to each key.
    pub closed spec fn view(&self) -> Map<Seq<u8>, Option<Seq<u8>>> {
        self.data@
    }

    /// The keys are in ascending order.
    pub closed spec fn wf(&self) -> bool {
        self.data.wf()
    }

    /// The bytes that were written, as far as they can be counted.
    pub closed spec fn size(&self) -> nat {
        self.size_bytes as nat
    }

    /// An empty table.
    pub fn new() -> (r: MemTable)
        ensures
            r.wf(),
            r@ == Map::<Seq<u8>, Option<Seq<u8>>>::empty(),
            r.size() == 0,
    {
        MemTable { data: SortedMap::new(), size_bytes: 0 }
    }

    /// Insert or overwrite a key.
    pub fn put(&mut self, key: Vec<u8>, value: Vec<u8>)
        requires
            old(self).wf(),
        ensures
            final(self).wf(),
            final(self)@ == old(self)@.insert(key@, Some(value@)),
            final(self).size() == size_sum(old(self).size(), key@.len() + value@.len()),
    {
        let n: usize = key.len();
        let m: usize = value.len();
        self.size_bytes = self.size_bytes.saturating_add(n).saturating_add(m);
        self.data.insert(key, Some(value));
    }

    /// Mark a key as deleted.
    pub fn delete(&mut self, key: Vec<u8>)
        requires
            old(self).wf(),
        ensures
            final(self).wf(),
            final(self)@ == old(self)@.insert(key@, None),
            final(self).size() == size_sum(old(self).size(), key@.len()),
    {
        let n: usize = key.len();
        self.size_bytes = self.size_bytes.saturating_add(n);
        self.data.insert(key, None);
    }

    /// What was last written to `key`; `None` if nothing was.
    pub fn get(&self, key: &[u8]) -> (r: Option<&MemValue>)
        requires
            self.wf(),
        ensures
            match r {
                Some(v) => self@.contains_key(key@) && v.model() == self@[key@],
                None => !self@.contains_key(key@),
            },
    {
        self.data.get(key)
    }

    /// All entries, in ascending key order.
    pub fn iter(&self) -> (r: Vec<(&Vec<u8>, &MemValue)>)
        requires
            self.wf(),
        ensures
            keys_ascend(r@.map_values(|e: (&Vec<u8>, &MemValue)| (e.0@, e.1.model()))),
            assoc(r@.map_values(|e: (&Vec<u8>, &MemValue)| (e.0@, e.1.model()))) == self@,
    {
        let mut r: Vec<(&Vec<u8>, &MemValue)> = Vec::new();
        let n: usize = self.data.len();
        let mut i: usize = 0;
        while i < n
            invariant
                i <= n,
                n == self.data.pairs().len(),
                r@.len() == i,
                forall|j: int|
                    0 <= j < i ==> ((#[trigger] r@[j]).0@, r@[j].1.model())
                        == self.data.pairs()[j],
            decreases n - i,
        {
            r.push((self.data.key_at(i), self.data.value_at(i)));
            i = i + 1;
        }
        assert(r@.map_values(|e: (&Vec<u8>, &MemValue)| (e.0@, e.1.model()))
            =~= self.data.pairs());
        r
    }

    /// Whether nothing was written.
    pub fn is_empty(&self) -> (r: bool)
        requires
            self.wf(),
        ensures
            r == (self@ == Map::<Seq<u8>, Option<Seq<u8>>>::empty()),
    {
        proof {
            let p = self.data.pairs();
            if p.len() == 0 {
                assert(self@ =~= Map::<Seq<u8>, Option<Seq<u8>>>::empty());
            } else {
                lemma_assoc_index(p, 0);
                assert(self@.contains_key(p[0].0));
            }
        }
        self.data.len() == 0
    }
}

impl Default for MemTable {
    fn default() -> (r: MemTable)
        ensures
            r.wf(),
            r@ == Map::<Seq<u8>, Option<Seq<u8>>>::empty(),
            r.size() == 0,
    {
        MemTable::new()
    }
}

} // verus!
