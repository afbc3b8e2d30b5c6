//! The in-memory sorted write buffer.
//!
//! All writes land here after they were logged. Entries are kept in key order,
//! which is the order in which they are flushed. Each carries the sequence
//! number of its write, so that a reader can leave out what was written later,
//! and a tombstone stands for a deleted key.

use crate::bytes::{copy_value, Model};
use crate::sorted_map::{assoc, keys_ascend, SortedMap};
use vstd::prelude::*;

verus! {

/// What was last written to a key, as a mathematical value.
#[verifier::ext_equal]
pub struct Version {
    /// The sequence number of the write.
    pub seq: u64,
    /// When the value expires, in milliseconds since the epoch; 0 for never.
    pub expires_at: u64,
    /// The value, or `None` for a tombstone.
    pub value: Option<Seq<u8>>,
}

impl Version {
    /// A reader whose clock shows `now` sees a value here.
    pub open spec fn visible(self, now: u64) -> bool {
        self.value is Some && (self.expires_at == 0 || now < self.expires_at)
    }

    /// What a reader sees whose clock shows `now`.
    pub open spec fn at(self, now: u64) -> Option<Seq<u8>> {
        if self.visible(now) {
            self.value
        } else {
            None
        }
    }
}

/// An entry of the memtable and of a table file.
#[derive(Debug)]
pub struct MemEntry {
    pub seq: u64,
    pub expires_at: u64,
    pub value: Option<Vec<u8>>,
}

impl Model for MemEntry {
    type M = Version;

    open spec fn model(&self) -> Version {
        Version { seq: self.seq, expires_at: self.expires_at, value: self.value.model() }
    }
}

impl MemEntry {
    /// A copy of the entry.
    pub fn copy(&self) -> (r: MemEntry)
        ensures
            r.model() == self.model(),
    {
        MemEntry {
            seq: self.seq,
            expires_at: self.expires_at,
            value: copy_value(&self.value),
        }
    }

    /// Whether a reader whose clock shows `now` sees a value here.
    pub fn is_visible(&self, now: u64) -> (r: bool)
        ensures
            r == self.model().visible(now),
    {
        self.value.is_some() && (self.expires_at == 0 || now < self.expires_at)
    }

    /// What a reader sees whose clock shows `now`.
    pub fn value_at(&self, now: u64) -> (r: Option<Vec<u8>>)
        ensures
            r.model() == self.model().at(now),
    {
        if self.is_visible(now) {
            copy_value(&self.value)
        } else {
            None
        }
    }
}

/// `a + b`, or the largest machine number where that is larger.
pub open spec fn size_sum(a: nat, b: nat) -> nat {
    if a + b > usize::MAX {
        usize::MAX as nat
    } else {
        a + b
    }
}

/// The write buffer of one column family.
pub struct MemTable {
    data: SortedMap<MemEntry>,
    size_bytes: usize,
}

impl MemTable {
    /// The entries in key order.
    pub closed spec fn pairs(&self) -> Seq<(Seq<u8>, Version)> {
        self.data.pairs()
    }

    /// The entries by key.
    pub open spec fn view(&self) -> Map<Seq<u8>, Version> {
        assoc(self.pairs())
    }

    /// Keys ascend.
    pub open spec fn wf(&self) -> bool {
        keys_ascend(self.pairs())
    }

    /// How many bytes were written.
    pub closed spec fn size(&self) -> nat {
        self.size_bytes as nat
    }

    /// The bytes are counted in a machine number.
    pub proof fn lemma_size(&self)
        ensures
            self.size() <= usize::MAX,
    {
    }

    /// How many bytes were written: keys, values, and eight for each sequence
    /// number. Overwritten entries count too.
    pub fn size_bytes(&self) -> (n: usize)
        ensures
            n == self.size(),
    {
        self.size_bytes
    }

    /// An empty buffer.
    pub fn new() -> (r: MemTable)
        ensures
            r.wf(),
            r.pairs() == Seq::<(Seq<u8>, Version)>::empty(),
            r@ == Map::<Seq<u8>, Version>::empty(),
            r.size() == 0,
    {
        MemTable { data: SortedMap::new(), size_bytes: 0 }
    }

    fn insert(&mut self, key: Vec<u8>, entry: MemEntry, grows: usize)
        requires
            old(self).wf(),
        ensures
            final(self).wf(),
            final(self)@ == old(self)@.insert(key@, entry.model()),
            final(self).size() == size_sum(old(self).size(), grows as nat),
    {
        self.size_bytes = self.size_bytes.saturating_add(grows);
        self.data.insert(key, entry);
    }

    /// Write a value that never expires.
    pub fn put_seq(&mut self, key: Vec<u8>, value: Vec<u8>, seq: u64)
        requires
            old(self).wf(),
        ensures
            final(self).wf(),
            final(self)@ == old(self)@.insert(
                key@,
                (Version { seq, expires_at: 0, value: Some(value@) }),
            ),
            final(self).size() == size_sum(
                old(self).size(),
                key@.len() + value@.len() + 8,
            ),
    {
        self.put_ttl_seq(key, value, seq, 0);
    }

    /// Write a value that expires at `expires_at`, or never if that is 0.
    pub fn put_ttl_seq(&mut self, key: Vec<u8>, value: Vec<u8>, seq: u64, expires_at: u64)
        requires
            old(self).wf(),
        ensures
            final(self).wf(),
            final(self)@ == old(self)@.insert(
                key@,
                (Version { seq, expires_at, value: Some(value@) }),
            ),
            final(self).size() == size_sum(
                old(self).size(),
                key@.len() + value@.len() + 8,
            ),
    {
        let grows: usize = key.len().saturating_add(value.len()).saturating_add(8);
        self.insert(key, MemEntry { seq, expires_at, value: Some(value) }, grows);
    }

    /// Write a tombstone.
    pub fn delete_seq(&mut self, key: Vec<u8>, seq: u64)
        requires
            old(self).wf(),
        ensures
            final(self).wf(),
            final(self)@ == old(self)@.insert(
                key@,
                (Version { seq, expires_at: 0, value: None }),
            ),
            final(self).size() == size_sum(old(self).size(), key@.len() + 8),
    {
        let grows: usize = key.len().saturating_add(8);
        self.insert(key, MemEntry { seq, expires_at: 0, value: None }, grows);
    }

    /// Write a value without a sequence number of its own: it gets the highest one,
    /// and every snapshot sees it.
    pub fn put(&mut self, key: Vec<u8>, value: Vec<u8>)
        requires
            old(self).wf(),
        ensures
            final(self).wf(),
            final(self)@ == old(self)@.insert(
                key@,
                (Version { seq: u64::MAX, expires_at: 0, value: Some(value@) }),
            ),
            final(self).size() == size_sum(
                old(self).size(),
                key@.len() + value@.len() + 8,
            ),
    {
        self.put_seq(key, value, u64::MAX);
    }

    /// Write a tombstone without a sequence number of its own: it gets the highest one,
    /// and every snapshot sees it.
    pub fn delete(&mut self, key: Vec<u8>)
        requires
            old(self).wf(),
        ensures
            final(self).wf(),
            final(self)@ == old(self)@.insert(
                key@,
                (Version { seq: u64::MAX, expires_at: 0, value: None }),
            ),
            final(self).size() == size_sum(old(self).size(), key@.len() + 8),
    {
        self.delete_seq(key, u64::MAX);
    }

    /// The entry at `key`.
    pub fn entry(&self, key: &[u8]) -> (r: Option<&MemEntry>)
        requires
            self.wf(),
        ensures
            match r {
                Some(e) => self@.contains_key(key@) && e.model() == self@[key@],
                None => !self@.contains_key(key@),
            },
    {
        self.data.get(key)
    }

    /// The value or tombstone at `key`, unless it was written after `max_seq`. What was
    /// written without a sequence number is always there.
    pub fn get_at(&self, key: &[u8], max_seq: u64) -> (r: Option<&Option<Vec<u8>>>)
        requires
            self.wf(),
        ensures
            match r {
                Some(v) => {
                    &&& self@.contains_key(key@)
                    &&& self@[key@].seq <= max_seq || self@[key@].seq == u64::MAX
                    &&& v.model() == self@[key@].value
                },
                None => !self@.contains_key(key@) || max_seq < self@[key@].seq < u64::MAX,
            },
    {
        match self.data.get(key) {
            Some(e) => if e.seq <= max_seq || e.seq == u64::MAX {
                Some(&e.value)
            } else {
                None
            },
            None => None,
        }
    }

    /// The value or tombstone at `key`, whenever it was written.
    pub fn get(&self, key: &[u8]) -> (r: Option<&Option<Vec<u8>>>)
        requires
            self.wf(),
        ensures
            match r {
                Some(v) => self@.contains_key(key@) && v.model() == self@[key@].value,
                None => !self@.contains_key(key@),
            },
    {
        match self.data.get(key) {
            Some(e) => Some(&e.value),
            None => None,
        }
    }

    /// The number of keys.
    pub fn len(&self) -> (n: usize)
        ensures
            n == self.pairs().len(),
    {
        self.data.len()
    }

    /// The key at position `i` of the key order.
    pub fn key_at(&self, i: usize) -> (r: &Vec<u8>)
        requires
            i < self.pairs().len(),
        ensures
            r@ == self.pairs()[i as int].0,
    {
        self.data.key_at(i)
    }

    /// The entry at position `i` of the key order.
    pub fn entry_at(&self, i: usize) -> (r: &MemEntry)
        requires
            i < self.pairs().len(),
        ensures
            r.model() == self.pairs()[i as int].1,
    {
        self.data.value_at(i)
    }

    /// The entries in key order.
    pub fn iter(&self) -> (r: Vec<(&Vec<u8>, &MemEntry)>)
        ensures
            r@.len() == self.pairs().len(),
            forall|i: int|
                0 <= i < r@.len() ==> (#[trigger] r@[i]).0@ == self.pairs()[i].0 && r@[i].1.model()
                    == self.pairs()[i].1,
    {
        let mut r: Vec<(&Vec<u8>, &MemEntry)> = Vec::new();
        let n: usize = self.data.len();
        let mut i: usize = 0;
        while i < n
            invariant
                i <= n,
                n == self.data.pairs().len(),
                r@.len() == i,
                forall|j: int|
                    0 <= j < i ==> (#[trigger] r@[j]).0@ == self.data.pairs()[j].0
                        && r@[j].1.model() == self.data.pairs()[j].1,
            decreases n - i,
        {
            r.push((self.data.key_at(i), self.data.value_at(i)));
            i = i + 1;
        }
        r
    }

    /// Whether nothing was written.
    pub fn is_empty(&self) -> (r: bool)
        ensures
            r == (self.pairs().len() == 0),
            r == (self@ == Map::<Seq<u8>, Version>::empty()),
    {
        proof {
            if self.pairs().len() > 0 {
                assert(self@.contains_key(self.pairs().last().0));
            }
        }
        self.data.len() == 0
    }
}

impl Default for MemTable {
    fn default() -> (r: MemTable)
        ensures
            r.wf(),
            r@ == Map::<Seq<u8>, Version>::empty(),
            r.size() == 0,
    {
        MemTable::new()
    }
}

/// Sizes add up as far as a machine number goes.
pub proof fn law_sizes_add_up(a: nat, b: nat)
    ensures
        a + b <= usize::MAX ==> size_sum(a, b) == a + b,
        a + b > usize::MAX ==> size_sum(a, b) == usize::MAX,
{
}

/// A version is seen if it has a value that does not expire or whose expiry the clock has
/// not reached; a tombstone is never seen.
pub proof fn law_what_a_version_shows(seq: u64, expires_at: u64, value: Seq<u8>, now: u64)
    ensures
        (Version { seq, expires_at, value: None }).at(now) is None,
        expires_at == 0 || now < expires_at ==> (Version { seq, expires_at, value: Some(value) }).at(
            now,
        ) == Some(value),
        0 < expires_at <= now ==> (Version { seq, expires_at, value: Some(value) }).at(now) is None,
{
}

} // verus!
