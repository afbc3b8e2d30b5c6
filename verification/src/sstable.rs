//! Sorted tables: writing, opening and searching table files.

use crate::bloom::{bits_for, has_bit, lemma_filter_fields, probed_bit, BloomFilter};
use crate::bytes::{bytes_eq, bytes_lt, copy_bytes, get_le, le_bytes, le_value,
    lemma_lex_order, lemma_lex_total, lex_lt, put_bytes, put_le, Model};
use crate::codec::{put_lp_le, read_le, read_lp_le};
use crate::error::EngineError;
use crate::memtable::{MemEntry, MemTable, Version};
use crate::sorted_map::{assoc, holds_key, keys_ascend, lemma_assoc_contains, lemma_assoc_index,
    pairs, SortedMap};
use crate::table_format::{all_storable, belongs, block_body, block_end, block_entries, block_raw,
    blocks_of, bloom_in, bloom_section_ok, bloom_sound, data_bytes, entry_bytes, file_bytes, flat,
    flat_pos, footer_bytes, footer_field, footer_ok, frames, framed_block, index_bytes, index_of, index_ok, intact,
    law_table_round_trip, leads_to, lemma_block_entry, lemma_blocks, lemma_flat_push, lemma_intact,
    lemma_intact_holds, lemma_parse_entry_splits, lemma_pointer_shrinks,
    max_seq_of, parse_body, parse_entries, parse_entry, parse_index, parse_pointer, pointer_bytes,
    section_words, table_entries, table_index, table_newest, unframe, Entry, BLOCK_SIZE,
    FOOTER_SIZE, MAGIC};
use vstd::prelude::*;
use vstd::slice::slice_subrange;

verus! {

// ---- entries -------------------------------------------------------------------

/// Append the bytes of an entry.
fn put_entry(out: &mut Vec<u8>, key: &[u8], entry: &MemEntry)
    ensures
        final(out)@ == old(out)@ + entry_bytes((key@, entry.model())),
{
    proof {
        reveal(entry_bytes);
    }
    put_lp_le(out, key, 4);
    put_le(out, entry.seq, 8);
    match &entry.value {
        Some(v) => {
            if entry.expires_at == 0 {
                out.push(0);
            } else {
                out.push(2);
                put_le(out, entry.expires_at, 8);
            }
            put_lp_le(out, v.as_slice(), 4);
        },
        None => {
            out.push(1);
        },
    }
    assert(out@ =~= old(out)@ + entry_bytes((key@, entry.model())));
}

/// Read the entry at `pos`.
fn read_entry(data: &[u8], pos: usize) -> (r: Option<(Vec<u8>, MemEntry, usize)>)
    requires
        pos <= data@.len(),
    ensures
        match r {
            Some((key, entry, end)) => {
                &&& pos < end <= data@.len()
                &&& parse_entry(data@.skip(pos as int)) == Some(
                    ((key@, entry.model()), data@.skip(end as int)),
                )
            },
            None => parse_entry(data@.skip(pos as int)) is None,
        },
{
    proof {
        reveal(parse_entry);
        lemma_parse_entry_splits(data@.skip(pos as int));
    }
    let (key, p1): (Vec<u8>, usize) = match read_lp_le(data, pos, 4) {
        Some(x) => x,
        None => {
            return None;
        },
    };
    let (seq, p2): (u64, usize) = match read_le(data, p1, 8) {
        Some(x) => x,
        None => {
            return None;
        },
    };
    if p2 == data.len() {
        return None;
    }
    let tag: u8 = data[p2];
    assert(data@.skip(p2 as int)[0] == tag);
    assert(data@.skip(p2 as int).skip(1) =~= data@.skip(p2 + 1));
    if tag == 1 {
        Some((key, MemEntry { seq, expires_at: 0, value: None }, p2 + 1))
    } else if tag == 0 {
        match read_lp_le(data, p2 + 1, 4) {
            Some((v, end)) => Some((key, MemEntry { seq, expires_at: 0, value: Some(v) }, end)),
            None => None,
        }
    } else if tag == 2 {
        match read_le(data, p2 + 1, 8) {
            Some((expires_at, p3)) => if expires_at == 0 {
                None
            } else {
                match read_lp_le(data, p3, 4) {
                    Some((v, end)) => Some(
                        (key, MemEntry { seq, expires_at, value: Some(v) }, end),
                    ),
                    None => None,
                }
            },
            None => None,
        }
    } else {
        None
    }
}

/// Read all the entries that stand one behind the other.
fn read_entries(data: &[u8]) -> (r: Option<Vec<(Vec<u8>, MemEntry)>>)
    ensures
        match r {
            Some(v) => parse_entries(data@) == Some(pairs(v@)),
            None => parse_entries(data@) is None,
        },
{
    let mut out: Vec<(Vec<u8>, MemEntry)> = Vec::new();
    let mut pos: usize = 0;
    assert(data@.skip(0) =~= data@);
    proof {
        if let Some(es) = parse_entries(data@) {
            assert(pairs(out@) + es =~= es);
        }
    }
    while pos < data.len()
        invariant
            pos <= data@.len(),
            match parse_entries(data@.skip(pos as int)) {
                Some(more) => parse_entries(data@) == Some(pairs(out@) + more),
                None => parse_entries(data@) is None,
            },
        decreases data@.len() - pos,
    {
        match read_entry(data, pos) {
            Some((key, entry, end)) => {
                let ghost before = pairs(out@);
                let ghost e = (key@, entry.model());
                out.push((key, entry));
                proof {
                    assert(pairs(out@) =~= before.push(e));
                    if let Some(more) = parse_entries(data@.skip(end as int)) {
                        assert(before + (seq![e] + more) =~= before.push(e) + more);
                    }
                }
                pos = end;
            },
            None => {
                return None;
            },
        }
    }
    assert(data@.skip(pos as int).len() == 0);
    assert(pairs(out@) + Seq::<Entry>::empty() =~= pairs(out@));
    Some(out)
}

/// Read the entries of the body of a block.
pub(crate) fn read_body(body: &[u8]) -> (r: Option<Vec<(Vec<u8>, MemEntry)>>)
    ensures
        match r {
            Some(v) => parse_body(body@) == Some(pairs(v@)),
            None => parse_body(body@) is None,
        },
{
    if body.len() < 4 {
        return None;
    }
    let rest: &[u8] = slice_subrange(body, 4, body.len());
    assert(rest@ =~= body@.skip(4));
    let v: Vec<(Vec<u8>, MemEntry)> = match read_entries(rest) {
        Some(v) => v,
        None => {
            return None;
        },
    };
    let mut count: Vec<u8> = Vec::new();
    put_le(&mut count, v.len() as u64, 4);
    let head: &[u8] = slice_subrange(body, 0, 4);
    assert(head@ =~= body@.take(4));
    assert(count@ =~= le_bytes(pairs(v@).len(), 4));
    if bytes_eq(head, count.as_slice()) {
        Some(v)
    } else {
        None
    }
}

/// Append a body between its length and its checksum.
fn put_framed(out: &mut Vec<u8>, body: &[u8])
    ensures
        final(out)@ == old(out)@ + framed_block(body@),
{
    let crc: u32 = crc32fast::hash(body);
    put_le(out, body.len() as u64, 4);
    put_bytes(out, body);
    put_le(out, crc as u64, 4);
    assert(out@ =~= old(out)@ + framed_block(body@));
}

/// The body of a block, unless it is damaged.
fn checked_body(raw: &[u8]) -> (r: Option<Vec<u8>>)
    ensures
        match r {
            Some(b) => unframe(raw@) == Some(b@),
            None => unframe(raw@) is None,
        },
{
    if raw.len() < 8 {
        return None;
    }
    let body: Vec<u8> = copy_bytes(slice_subrange(raw, 4, raw.len() - 4));
    let mut again: Vec<u8> = Vec::new();
    put_framed(&mut again, body.as_slice());
    assert(again@ =~= framed_block(body@));
    assert(body@ =~= raw@.subrange(4, raw@.len() - 4));
    if bytes_eq(raw, again.as_slice()) {
        Some(body)
    } else {
        None
    }
}

/// Append a block.
fn put_block(out: &mut Vec<u8>, entries: &[u8], count: usize, Ghost(b): Ghost<Seq<Entry>>)
    requires
        entries@ == data_bytes(b),
        count == b.len(),
    ensures
        final(out)@ == old(out)@ + framed_block(block_body(b)),
{
    let mut body: Vec<u8> = Vec::new();
    put_le(&mut body, count as u64, 4);
    put_bytes(&mut body, entries);
    assert(body@ =~= block_body(b));
    put_framed(out, body.as_slice());
}

// ---- sections ------------------------------------------------------------------

/// The bytes of an index.
fn encode_index(index: &SortedMap<u64>) -> (r: Vec<u8>)
    ensures
        r@ == index_bytes(index.pairs()),
{
    let mut out: Vec<u8> = Vec::new();
    let n: usize = index.len();
    let mut i: usize = 0;
    let ghost ix = index.pairs();
    assert(ix.take(0) =~= Seq::<(Seq<u8>, u64)>::empty());
    while i < n
        invariant
            i <= n,
            n == ix.len(),
            ix == index.pairs(),
            out@ == index_bytes(ix.take(i as int)),
        decreases n - i,
    {
        let ghost before = out@;
        put_lp_le(&mut out, index.key_at(i).as_slice(), 4);
        put_le(&mut out, *index.value_at(i), 8);
        proof {
            let t = ix.take(i + 1);
            assert(t.drop_last() =~= ix.take(i as int));
            assert(t.last() == ix[i as int]);
            assert(out@ =~= before + pointer_bytes(ix[i as int]));
        }
        i = i + 1;
    }
    assert(ix.take(i as int) =~= ix);
    out
}

/// Read an index, if its keys ascend.
fn read_index(data: &[u8]) -> (r: Option<SortedMap<u64>>)
    ensures
        match r {
            Some(m) => m.wf() && parse_index(data@) == Some(m.pairs()),
            None => parse_index(data@) matches Some(ix) ==> !keys_ascend(ix),
        },
{
    let mut out: SortedMap<u64> = SortedMap::new();
    let mut pos: usize = 0;
    assert(data@.skip(0) =~= data@);
    proof {
        if let Some(ix) = parse_index(data@) {
            assert(out.pairs() + ix =~= ix);
        }
    }
    while pos < data.len()
        invariant
            pos <= data@.len(),
            out.wf(),
            match parse_index(data@.skip(pos as int)) {
                Some(more) => parse_index(data@) == Some(out.pairs() + more),
                None => parse_index(data@) is None,
            },
        decreases data@.len() - pos,
    {
        let ghost s = data@.skip(pos as int);
        let ghost before = out.pairs();
        proof {
            lemma_pointer_shrinks(s);
        }
        let (key, p1): (Vec<u8>, usize) = match read_lp_le(data, pos, 4) {
            Some(x) => x,
            None => {
                return None;
            },
        };
        let (offset, end): (u64, usize) = match read_le(data, p1, 8) {
            Some(x) => x,
            None => {
                return None;
            },
        };
        let ghost x = (key@, offset);
        let ghost rest = data@.skip(end as int);
        assert(parse_pointer(s) == Some((x, rest)));
        let n: usize = out.len();
        if n > 0 && !bytes_lt(out.key_at(n - 1).as_slice(), key.as_slice()) {
            proof {
                if let Some(ix) = parse_index(data@) {
                    let more = parse_index(rest)->0;
                    assert(ix =~= before + (seq![x] + more));
                    assert(ix[n - 1] == before[n - 1] && ix[n as int] == x);
                    if keys_ascend(ix) {
                        assert(lex_lt(ix[n - 1].0, ix[n as int].0));
                    }
                }
            }
            return None;
        }
        proof {
            lemma_lex_order();
            assert forall|i: int| 0 <= i < before.len() implies lex_lt(
                #[trigger] before[i].0,
                key@,
            ) by {
                if i < n - 1 {
                    assert(lex_lt(before[i].0, before[n - 1].0));
                }
            }
        }
        out.push_last(key, offset);
        proof {
            if let Some(more) = parse_index(rest) {
                assert(before + (seq![x] + more) =~= before.push(x) + more);
            }
        }
        pos = end;
    }
    assert(data@.skip(pos as int).len() == 0);
    assert(out.pairs() + Seq::<(Seq<u8>, u64)>::empty() =~= out.pairs());
    Some(out)
}

/// Whether the offsets of an index ascend and lie before `end`.
fn offsets_fit(index: &SortedMap<u64>, end: u64) -> (r: bool)
    requires
        index.wf(),
    ensures
        r == index_ok(index.pairs(), end as nat),
{
    let ghost ix = index.pairs();
    let n: usize = index.len();
    let mut i: usize = 0;
    while i < n
        invariant
            i <= n,
            n == ix.len(),
            ix == index.pairs(),
            forall|a: int, b: int| 0 <= a < b < i ==> (#[trigger] ix[a]).1 < (#[trigger] ix[b]).1,
            forall|a: int| 0 <= a < i ==> (#[trigger] ix[a]).1 <= end,
        decreases n - i,
    {
        let at: u64 = *index.value_at(i);
        assert(ix[i as int].1 == at);
        if at > end {
            return false;
        }
        if i > 0 && *index.value_at(i - 1) >= at {
            assert(ix[i - 1].1 >= ix[i as int].1);
            return false;
        }
        proof {
            assert forall|a: int, b: int| 0 <= a < b < i + 1 implies (#[trigger] ix[a]).1 < (
            #[trigger] ix[b]).1 by {
                if b == i && a < i - 1 {
                    assert(ix[a].1 < ix[i - 1].1);
                }
            }
        }
        i = i + 1;
    }
    true
}

/// The filter says of the first `n` keys that they may be there.
spec fn covers_first(bloom: &BloomFilter, es: Seq<Entry>, n: int) -> bool {
    forall|k: int| 0 <= k < n ==> bloom.covers(#[trigger] es[k].0)
}

proof fn lemma_bloom_section(bloom: &BloomFilter, es: Seq<Entry>)
    requires
        bloom.wf(),
        covers_first(bloom, es, es.len() as int),
    ensures
        bloom_section_ok(bloom.bytes(), es),
{
    lemma_filter_fields(bloom);
    let b = bloom.bytes();
    let words = section_words(b);
    assert forall|i: int| 0 <= i < words.len() implies words[i] == bloom.words()[i] by {
        let w = bloom.words()[i];
    }
    assert(words =~= bloom.words());
    assert forall|k: int, i: nat| 0 <= k < es.len() && i < bloom.num_hashes() implies has_bit(
        words,
        #[trigger] probed_bit(#[trigger] es[k].0, i, bloom.num_bits()),
    ) by {
        assert(bloom.covers(es[k].0));
    }
}

/// Some key of the first `n` entries probes the bit `j`.
pub open spec fn marked(es: Seq<Entry>, n: int, num_bits: nat, num_hashes: nat, j: nat) -> bool {
    exists|k: int, i: nat|
        0 <= k < n && i < num_hashes && #[trigger] probed_bit(es[k].0, i, num_bits) == j
}

/// The filter has the bits set that the keys of the first `n` entries probe,
/// and no others.
pub open spec fn filter_of(bloom: &BloomFilter, es: Seq<Entry>, n: int) -> bool {
    &&& bloom.wf()
    &&& forall|j: nat|
        j < bloom.words().len() * 64 ==> (#[trigger] has_bit(bloom.words(), j) <==> marked(
            es,
            n,
            bloom.num_bits(),
            bloom.num_hashes(),
            j,
        ))
}

/// How many keys the filter of a table with `n` entries is made for.
pub open spec fn filter_capacity(n: nat) -> nat {
    if n == 0 {
        1
    } else if n > usize::MAX / 16 {
        (usize::MAX / 16) as nat
    } else {
        n
    }
}

proof fn lemma_filter_covers(bloom: &BloomFilter, es: Seq<Entry>, n: int)
    requires
        filter_of(bloom, es, n),
    ensures
        covers_first(bloom, es, n),
{
    assert forall|k: int| 0 <= k < n implies bloom.covers(#[trigger] es[k].0) by {
        assert forall|i: nat| i < bloom.num_hashes() implies #[trigger] has_bit(
            bloom.words(),
            probed_bit(es[k].0, i, bloom.num_bits()),
        ) by {
            let j = probed_bit(es[k].0, i, bloom.num_bits());
            assert(j < bloom.num_bits());
            assert(marked(es, n, bloom.num_bits(), bloom.num_hashes(), j));
        }
    }
}

/// Make the filter for the first `n` entries into one for the first `n + 1`.
fn note_key(bloom: &mut BloomFilter, key: &[u8], Ghost(es): Ghost<Seq<Entry>>, Ghost(n): Ghost<int>)
    requires
        filter_of(old(bloom), es, n),
        0 <= n < es.len(),
        es[n].0 == key@,
    ensures
        filter_of(final(bloom), es, n + 1),
        final(bloom).num_bits() == old(bloom).num_bits(),
        final(bloom).num_hashes() == old(bloom).num_hashes(),
        final(bloom).words().len() == old(bloom).words().len(),
{
    let ghost before = bloom.words();
    let ghost nb = bloom.num_bits();
    let ghost nh = bloom.num_hashes();
    bloom.insert(key);
    proof {
        assert forall|j: nat| j < bloom.words().len() * 64 implies (#[trigger] has_bit(
            bloom.words(),
            j,
        ) <==> marked(es, n + 1, nb, nh, j)) by {
            assert(has_bit(before, j) <==> marked(es, n, nb, nh, j));
            if has_bit(bloom.words(), j) {
                if has_bit(before, j) {
                    let (k, i) = choose|k: int, i: nat|
                        0 <= k < n && i < nh && #[trigger] probed_bit(es[k].0, i, nb) == j;
                    assert(probed_bit(es[k].0, i, nb) == j);
                } else {
                    let i = choose|i: nat| i < nh && #[trigger] probed_bit(key@, i, nb) == j;
                    assert(probed_bit(es[n].0, i, nb) == j);
                }
            }
            if marked(es, n + 1, nb, nh, j) {
                let (k, i) = choose|k: int, i: nat|
                    0 <= k < n + 1 && i < nh && #[trigger] probed_bit(es[k].0, i, nb) == j;
                assert(probed_bit(es[k].0, i, nb) == j);
                if k < n {
                    assert(marked(es, n, nb, nh, j));
                } else {
                    assert(probed_bit(key@, i, nb) == j);
                }
            }
        }
    }
}

// ---- tables --------------------------------------------------------------------

/// A table file with what a reader keeps of it at hand.
pub struct SSTable {
    name: String,
    level: u32,
    data: Vec<u8>,
    index_offset: usize,
    index: SortedMap<u64>,
    bloom: BloomFilter,
    entry_count: u64,
    max_write_seq: u64,
}

impl SSTable {
    /// The name of the file.
    pub closed spec fn name(&self) -> Seq<char> {
        self.name@
    }

    /// The level that the table belongs to.
    pub closed spec fn level(&self) -> u32 {
        self.level
    }

    /// The bytes of the file.
    pub closed spec fn bytes(&self) -> Seq<u8> {
        self.data@
    }

    /// The filter of the file.
    pub closed spec fn bloom(&self) -> BloomFilter {
        self.bloom
    }

    /// The sparse index of the file.
    pub open spec fn index(&self) -> Seq<(Seq<u8>, u64)> {
        table_index(self.bytes())->0
    }

    /// The entries of block `j`, unless it is damaged.
    pub open spec fn part(&self, j: int) -> Option<Seq<Entry>> {
        block_entries(self.bytes(), j)
    }

    /// The entries of the file that can be read, in key order.
    pub open spec fn entries(&self) -> Seq<Entry> {
        table_entries(self.bytes())->0
    }

    /// The entries of the file that can be read, by key.
    pub open spec fn view(&self) -> Map<Seq<u8>, Version> {
        assoc(self.entries())
    }

    /// The largest sequence number that was written to the file.
    pub open spec fn newest(&self) -> u64 {
        table_newest(self.bytes())
    }

    /// Some block is damaged.
    pub open spec fn is_damaged(&self) -> bool {
        exists|j: int| 0 <= j < self.index().len() && #[trigger] self.part(j) is None
    }

    /// The block in which `key` would stand is damaged, so that it cannot be told whether
    /// it is there.
    pub open spec fn hides(&self, key: Seq<u8>) -> bool {
        self.bloom().covers(key) && exists|j: int| #[trigger]
            leads_to(self.index(), key, j) && self.part(j) is None
    }

    /// The file is a table file, and what is kept of it is what it says.
    pub closed spec fn wf(&self) -> bool {
        let b = bloom_in(self.data@);
        &&& table_index(self.data@) == Some(self.index.pairs())
        &&& self.index_offset == footer_field(self.data@, 0)
        &&& self.entry_count == footer_field(self.data@, 3)
        &&& self.max_write_seq == footer_field(self.data@, 5)
        &&& self.bloom.wf()
        &&& self.bloom.num_bits() == le_value(b.subrange(0, 8))
        &&& self.bloom.num_hashes() == le_value(b.subrange(8, 16))
        &&& self.bloom.words() == section_words(b)
    }

    /// A well-formed table holds the entries of its file.
    pub proof fn lemma_wf(&self)
        requires
            self.wf(),
        ensures
            table_index(self.bytes()) == Some(self.index()),
            table_entries(self.bytes()) == Some(self.entries()),
            keys_ascend(self.index()),
            keys_ascend(self.entries()),
            all_storable(self.entries()),
            self.bytes().len() <= usize::MAX,
            forall|i: int|
                0 <= i < self.entries().len() ==> (#[trigger] self.entries()[i]).1.seq
                    <= self.newest(),
    {
        lemma_intact(self.data@, self.index().len() as int);
        assert(self.data.len() <= usize::MAX);
    }

    /// Write the entries of `mem` to a table file.
    pub fn write_from_memtable(name: String, mem: &MemTable, level: u32) -> (t: SSTable)
        requires
            mem.wf(),
            all_storable(mem.pairs()),
        ensures
            t.wf(),
            t.name() == name@,
            t.level() == level,
            t.entries() == mem.pairs(),
            t@ == mem@,
            !t.is_damaged(),
            t.newest() == max_seq_of(mem.pairs()),
            t.bytes() == file_bytes(mem.pairs(), t.bloom().bytes()),
            filter_of(&t.bloom(), mem.pairs(), mem.pairs().len() as int),
            t.bloom().num_bits() == bits_for(filter_capacity(mem.pairs().len())),
            t.bloom().num_hashes() == 7,
            t.bloom().words().len() == (t.bloom().num_bits() + 63) / 64,
    {
        let ghost es = mem.pairs();
        let n: usize = mem.len();
        let capacity: usize = if n == 0 {
            1
        } else if n > usize::MAX / 16 {
            usize::MAX / 16
        } else {
            n
        };
        let mut bloom: BloomFilter = BloomFilter::new(capacity);
        let ghost nb = bloom.num_bits();
        let ghost nw = bloom.words().len();
        let mut index: SortedMap<u64> = SortedMap::new();
        let mut data: Vec<u8> = Vec::new();
        let mut block: Vec<u8> = Vec::new();
        let mut count: usize = 0;
        let mut max_write_seq: u64 = 0;
        let mut i: usize = 0;
        proof {
            assert(es.take(0) =~= Seq::<Entry>::empty());
            assert forall|j: nat| j < bloom.words().len() * 64 implies (#[trigger] has_bit(
                bloom.words(),
                j,
            ) <==> marked(es, 0, nb, 7, j)) by {
                assert(!has_bit(bloom.words(), j));
            }
            assert(index.pairs() =~= index_of(blocks_of(es.take(0))));
        }
        while i < n
            invariant
                i <= n,
                n == es.len(),
                es == mem.pairs(),
                keys_ascend(es),
                under_way(data@, block@, count as nat, index.pairs(), blocks_of(es.take(i as int))),
                index.wf(),
                count <= i,
                filter_of(&bloom, es, i as int),
                bloom.num_bits() == nb,
                bloom.num_hashes() == 7,
                bloom.words().len() == nw,
                max_write_seq == max_seq_of(es.take(i as int)),
            decreases n - i,
        {
            let key: &Vec<u8> = mem.key_at(i);
            let entry: &MemEntry = mem.entry_at(i);
            let ghost e = es[i as int];
            proof {
                let t = es.take(i + 1);
                assert(t.drop_last() =~= es.take(i as int));
                assert(t.last() == e);
                lemma_index_before(es, i as int);
            }
            assert(es.take(i as int).push(e) =~= es.take(i + 1));
            count = add_to_block(
                &mut data,
                &mut block,
                count,
                &mut index,
                key.as_slice(),
                entry,
                Ghost(es.take(i as int)),
            );
            note_key(&mut bloom, key.as_slice(), Ghost(es), Ghost(i as int));
            if entry.seq > max_write_seq {
                max_write_seq = entry.seq;
            }
            i = i + 1;
        }
        assert(es.take(i as int) =~= es);
        let ghost bs = blocks_of(es);
        if count > 0 {
            proof {
                lemma_frames_last(bs);
            }
            put_block(&mut data, block.as_slice(), count, Ghost(bs.last()));
        }
        assert(data@ =~= flat(frames(bs)));
        finish_table(name, level, data, index, bloom, n, max_write_seq, Ghost(es))
    }
}

/// The bytes of a footer.
fn encode_footer(
    index_offset: u64,
    bloom_offset: u64,
    bloom_len: u64,
    entry_count: u64,
    block_count: u64,
    max_write_seq: u64,
) -> (r: Vec<u8>)
    ensures
        r@ == footer_bytes(
            index_offset as nat,
            bloom_offset as nat,
            bloom_len as nat,
            entry_count as nat,
            block_count as nat,
            max_write_seq as nat,
            MAGIC as nat,
        ),
{
    let mut r: Vec<u8> = Vec::new();
    put_le(&mut r, index_offset, 8);
    put_le(&mut r, bloom_offset, 8);
    put_le(&mut r, bloom_len, 8);
    put_le(&mut r, entry_count, 8);
    put_le(&mut r, block_count, 8);
    put_le(&mut r, max_write_seq, 8);
    put_le(&mut r, MAGIC, 8);
    assert(Seq::<u8>::empty() + le_bytes(index_offset as nat, 8) =~= le_bytes(
        index_offset as nat,
        8,
    ));
    r
}

/// Append the index, the filter and the footer to the blocks of a file.
fn finish_table(
    name: String,
    level: u32,
    blocks: Vec<u8>,
    index: SortedMap<u64>,
    bloom: BloomFilter,
    n: usize,
    max_write_seq: u64,
    Ghost(es): Ghost<Seq<Entry>>,
) -> (t: SSTable)
    requires
        all_storable(es),
        keys_ascend(es),
        n == es.len(),
        blocks@ == flat(frames(blocks_of(es))),
        index.pairs() == index_of(blocks_of(es)),
        filter_of(&bloom, es, n as int),
        max_write_seq == max_seq_of(es),
    ensures
        t.wf(),
        t.name() == name@,
        t.level() == level,
        t.entries() == es,
        !t.is_damaged(),
        t.newest() == max_seq_of(es),
        t.bloom() == bloom,
        t.bytes() == file_bytes(es, bloom.bytes()),
{
    let ghost bs = blocks_of(es);
    let ghost b = bloom.bytes();
    let ghost ib = index_bytes(index_of(bs));
    let mut data: Vec<u8> = blocks;
    let index_offset: usize = data.len();
    let index_section: Vec<u8> = encode_index(&index);
    put_bytes(&mut data, index_section.as_slice());
    let bloom_offset: usize = data.len();
    let bloom_section: Vec<u8> = bloom.to_bytes();
    put_bytes(&mut data, bloom_section.as_slice());
    assert(data@ == flat(frames(bs)) + ib + b);
    let footer: Vec<u8> = encode_footer(
        index_offset as u64,
        bloom_offset as u64,
        bloom_section.len() as u64,
        n as u64,
        index.len() as u64,
        max_write_seq,
    );
    put_bytes(&mut data, footer.as_slice());
    assert(data@ == file_bytes(es, b));
    let t: SSTable = SSTable {
        name,
        level,
        data,
        index_offset,
        index,
        bloom,
        entry_count: n as u64,
        max_write_seq,
    };
    proof {
        t.lemma_finished(es);
    }
    t
}

/// What is read of a file that was written.
proof fn lemma_written_file(es: Seq<Entry>, b: Seq<u8>, file: Seq<u8>)
    requires
        all_storable(es),
        keys_ascend(es),
        bloom_section_ok(b, es),
        file == file_bytes(es, b),
        file.len() <= u64::MAX,
        es.len() <= u64::MAX,
    ensures
        table_index(file) == Some(index_of(blocks_of(es))),
        forall|j: int|
            0 <= j < index_of(blocks_of(es)).len() ==> #[trigger] block_entries(file, j) is Some,
        table_entries(file) == Some(es),
        table_newest(file) == max_seq_of(es),
        footer_field(file, 5) == max_seq_of(es),
        footer_field(file, 0) == flat(frames(blocks_of(es))).len(),
        footer_field(file, 3) == es.len(),
        bloom_in(file) == b,
{
    law_table_round_trip(es, b);
    assert forall|j: int| 0 <= j < index_of(blocks_of(es)).len() implies #[trigger] block_entries(
        file,
        j,
    ) is Some by {
        assert(block_entries(file, j) == Some(blocks_of(es)[j]));
    }
}

impl SSTable {
    /// A table whose file was written with the entries `es`.
    proof fn lemma_finished(&self, es: Seq<Entry>)
        requires
            all_storable(es),
            keys_ascend(es),
            filter_of(&self.bloom, es, es.len() as int),
            self.data@ == file_bytes(es, self.bloom.bytes()),
            es.len() <= u64::MAX,
            self.index.pairs() == index_of(blocks_of(es)),
            self.index_offset == flat(frames(blocks_of(es))).len(),
            self.entry_count == es.len(),
            self.max_write_seq == max_seq_of(es),
        ensures
            self.wf(),
            self.entries() == es,
            !self.is_damaged(),
            self.newest() == max_seq_of(es),
    {
        let b = self.bloom.bytes();
        let file = self.data@;
        assert(bloom_section_ok(b, es)) by {
            lemma_filter_covers(&self.bloom, es, es.len() as int);
            lemma_bloom_section(&self.bloom, es);
        }
        assert(self.data.len() <= usize::MAX);
        lemma_written_file(es, b, file);
        lemma_section_of_filter(&self.bloom);
        if self.is_damaged() {
            let j = choose|j: int| 0 <= j < self.index().len() && #[trigger] self.part(j) is None;
            assert(block_entries(file, j) is Some);
        }
    }
}

/// A file of which the blocks `bs` were begun: all but the last are written, and of the
/// last one the entries wait.
spec fn under_way(
    data: Seq<u8>,
    block: Seq<u8>,
    count: nat,
    ix: Seq<(Seq<u8>, u64)>,
    bs: Seq<Seq<Entry>>,
) -> bool {
    &&& ix == index_of(bs)
    &&& if bs.len() == 0 {
        data == Seq::<u8>::empty() && block == Seq::<u8>::empty() && count == 0
    } else {
        &&& data == flat(frames(bs.drop_last()))
        &&& block == data_bytes(bs.last())
        &&& count == bs.last().len()
        &&& count > 0
    }
}

/// Add an entry to a file that is under way. Returns how many entries wait then.
fn add_to_block(
    data: &mut Vec<u8>,
    block: &mut Vec<u8>,
    count: usize,
    index: &mut SortedMap<u64>,
    key: &[u8],
    entry: &MemEntry,
    Ghost(es): Ghost<Seq<Entry>>,
) -> (r: usize)
    requires
        under_way(old(data)@, old(block)@, count as nat, old(index).pairs(), blocks_of(es)),
        old(index).wf(),
        forall|j: int|
            0 <= j < old(index).pairs().len() ==> lex_lt(#[trigger] old(index).pairs()[j].0, key@),
        count < usize::MAX,
    ensures
        under_way(
            final(data)@,
            final(block)@,
            r as nat,
            final(index).pairs(),
            blocks_of(es.push((key@, entry.model()))),
        ),
        final(index).wf(),
        r <= count + 1,
{
    let ghost e = (key@, entry.model());
    let ghost bs = blocks_of(es);
    let ghost after = blocks_of(es.push(e));
    proof {
        assert(es.push(e).drop_last() =~= es);
        lemma_blocks(es);
    }
    if count == 0 || block.len() as u64 >= BLOCK_SIZE {
        if count > 0 {
            proof {
                lemma_frames_last(bs);
            }
            put_block(data, block.as_slice(), count, Ghost(bs.last()));
        }
        assert(data@ =~= flat(frames(bs)));
        index.push_last(copy_bytes(key), data.len() as u64);
        *block = Vec::new();
        put_entry(block, key, entry);
        proof {
            lemma_index_push(bs, seq![e]);
            assert(after == bs.push(seq![e]));
            assert(after.drop_last() =~= bs);
            assert(seq![e].drop_last() =~= Seq::<Entry>::empty());
            assert(data_bytes(seq![e]) == data_bytes(Seq::<Entry>::empty()) + entry_bytes(e));
            assert(block@ =~= data_bytes(seq![e]));
        }
        1
    } else {
        let ghost last = bs.last();
        put_entry(block, key, entry);
        proof {
            assert(last.push(e).drop_last() =~= last);
            assert(block@ =~= data_bytes(last.push(e)));
            assert(after == bs.drop_last().push(last.push(e)));
            assert(after.drop_last() =~= bs.drop_last());
            lemma_index_grow(bs, e);
        }
        count + 1
    }
}

/// The bytes of the last block come behind those of the others.
proof fn lemma_frames_last(bs: Seq<Seq<Entry>>)
    requires
        bs.len() > 0,
    ensures
        flat(frames(bs)) == flat(frames(bs.drop_last())) + framed_block(block_body(bs.last())),
{
    assert(frames(bs) =~= frames(bs.drop_last()).push(framed_block(block_body(bs.last()))));
    lemma_flat_push(frames(bs.drop_last()), framed_block(block_body(bs.last())));
}

/// The index with one more block.
proof fn lemma_index_push(bs: Seq<Seq<Entry>>, b: Seq<Entry>)
    requires
        b.len() > 0,
    ensures
        index_of(bs.push(b)) == index_of(bs).push((b[0].0, flat(frames(bs)).len() as u64)),
{
    let more = bs.push(b);
    assert forall|j: int| 0 <= j <= bs.len() implies frames(more).take(j) == (#[trigger] frames(
        bs,
    ).take(j)) by {
        assert(frames(more).take(j) =~= frames(bs).take(j));
    }
    assert(frames(bs).take(bs.len() as int) =~= frames(bs));
    assert forall|j: int| 0 <= j < more.len() implies index_of(more)[j] == index_of(bs).push(
        (b[0].0, flat(frames(bs)).len() as u64),
    )[j] by {
        assert(frames(more).take(j) == frames(bs).take(j));
    }
    assert(index_of(more) =~= index_of(bs).push((b[0].0, flat(frames(bs)).len() as u64)));
}

/// The index stays the same when the last block gets one more entry.
proof fn lemma_index_grow(bs: Seq<Seq<Entry>>, e: Entry)
    requires
        bs.len() > 0,
        bs.last().len() > 0,
    ensures
        index_of(bs.drop_last().push(bs.last().push(e))) == index_of(bs),
{
    let less = bs.drop_last();
    assert(bs =~= less.push(bs.last()));
    lemma_index_push(less, bs.last());
    lemma_index_push(less, bs.last().push(e));
    assert(bs.last().push(e)[0] == bs.last()[0]);
}

/// The keys of the index over a part of the entries come before the key of the
/// entry that follows that part.
proof fn lemma_index_before(es: Seq<Entry>, n: int)
    requires
        keys_ascend(es),
        0 <= n < es.len(),
    ensures
        forall|j: int|
            0 <= j < index_of(blocks_of(es.take(n))).len() ==> lex_lt(
                #[trigger] index_of(blocks_of(es.take(n)))[j].0,
                es[n].0,
            ),
{
    let bs = blocks_of(es.take(n));
    lemma_blocks(es.take(n));
    assert forall|j: int| 0 <= j < index_of(bs).len() implies lex_lt(
        #[trigger] index_of(bs)[j].0,
        es[n].0,
    ) by {
        assert(bs[j].len() > 0);
        lemma_block_entry(bs, j, 0);
        let p = flat_pos(bs, j) as int;
        assert(es.take(n)[p] == es[p]);
        assert(lex_lt(es[p].0, es[n].0));
    }
}

/// A filter is what its section says.
proof fn lemma_section_of_filter(bloom: &BloomFilter)
    requires
        bloom.wf(),
    ensures
        bloom.num_bits() == le_value(bloom.bytes().subrange(0, 8)),
        bloom.num_hashes() == le_value(bloom.bytes().subrange(8, 16)),
        bloom.words() == section_words(bloom.bytes()),
{
    lemma_filter_fields(bloom);
    let b = bloom.bytes();
    let words = section_words(b);
    assert forall|i: int| 0 <= i < words.len() implies words[i] == bloom.words()[i] by {
        let w = bloom.words()[i];
    }
    assert(words =~= bloom.words());
}

// ---- opening -------------------------------------------------------------------

/// Read the filter of a bloom section, if it can be probed.
fn read_filter(b: &[u8]) -> (r: Option<BloomFilter>)
    ensures
        match r {
            Some(f) => {
                &&& b@.len() >= 16
                &&& f.wf()
                &&& f.num_bits() == le_value(b@.subrange(0, 8)) <= usize::MAX
                &&& f.num_hashes() == le_value(b@.subrange(8, 16)) <= usize::MAX
                &&& f.words() == section_words(b@)
            },
            None => !bloom_sound(b@),
        },
{
    if b.len() < 16 {
        return None;
    }
    let num_bits: u64 = get_le(b, 0, 8);
    let num_hashes: u64 = get_le(b, 8, 8);
    if num_bits > usize::MAX as u64 || num_hashes > usize::MAX as u64 {
        return None;
    }
    let f: BloomFilter = BloomFilter::from_bytes(b);
    proof {
        let words = section_words(b@);
        assert forall|i: int| 0 <= i < words.len() implies words[i] == f.words()[i] by {
            let w = f.words()[i];
        }
        assert(words =~= f.words());
    }
    if f.is_sound() {
        Some(f)
    } else {
        None
    }
}

proof fn lemma_section_covers(b: Seq<u8>, f: &BloomFilter, es: Seq<Entry>)
    requires
        b.len() >= 16,
        f.wf(),
        f.num_bits() == le_value(b.subrange(0, 8)) <= usize::MAX,
        f.num_hashes() == le_value(b.subrange(8, 16)) <= usize::MAX,
        f.words() == section_words(b),
    ensures
        bloom_section_ok(b, es) <==> covers_first(f, es, es.len() as int),
{
    let nb = f.num_bits();
    let nh = f.num_hashes();
    let words = section_words(b);
    if bloom_section_ok(b, es) {
        assert forall|k: int| 0 <= k < es.len() implies f.covers(#[trigger] es[k].0) by {
            assert forall|i: nat| i < nh implies #[trigger] has_bit(
                f.words(),
                probed_bit(es[k].0, i, nb),
            ) by {
                assert(has_bit(words, probed_bit(es[k].0, i, nb)));
            }
        }
    }
    if covers_first(f, es, es.len() as int) {
        assert forall|k: int, i: nat| 0 <= k < es.len() && i < nh implies has_bit(
            words,
            #[trigger] probed_bit(#[trigger] es[k].0, i, nb),
        ) by {
            assert(f.covers(es[k].0));
        }
    }
}

/// Whether the filter says of every key that it may be there.
fn filter_covers(f: &BloomFilter, entries: &Vec<(Vec<u8>, MemEntry)>) -> (r: bool)
    requires
        f.wf(),
    ensures
        r == covers_first(f, pairs(entries@), entries@.len() as int),
{
    let mut i: usize = 0;
    while i < entries.len()
        invariant
            i <= entries@.len(),
            f.wf(),
            covers_first(f, pairs(entries@), i as int),
        decreases entries@.len() - i,
    {
        assert(pairs(entries@)[i as int].0 == entries@[i as int].0@);
        if !f.may_contain(entries[i].0.as_slice()) {
            return false;
        }
        i = i + 1;
    }
    true
}

/// Whether keys ascend.
fn is_ascending(entries: &Vec<(Vec<u8>, MemEntry)>) -> (r: bool)
    ensures
        r == keys_ascend(pairs(entries@)),
{
    let ghost es = pairs(entries@);
    let mut i: usize = 1;
    while i < entries.len()
        invariant
            1 <= i,
            es == pairs(entries@),
            i <= entries@.len() || entries@.len() == 0,
            keys_ascend(es.take(if i <= es.len() {
                i as int
            } else {
                es.len() as int
            })),
        decreases entries@.len() - i,
    {
        assert(es[i - 1].0 == entries@[i - 1].0@ && es[i as int].0 == entries@[i as int].0@);
        if !bytes_lt(entries[i - 1].0.as_slice(), entries[i].0.as_slice()) {
            return false;
        }
        proof {
            lemma_lex_order();
            let t = es.take(i + 1);
            assert forall|a: int, b: int| 0 <= a < b < t.len() implies lex_lt(
                #[trigger] t[a].0,
                #[trigger] t[b].0,
            ) by {
                let u = es.take(i as int);
                if b < i {
                    assert(t[a] == u[a] && t[b] == u[b]);
                } else if a < i - 1 {
                    assert(t[a] == u[a] && t[i - 1] == u[i - 1]);
                    assert(lex_lt(u[a].0, u[i - 1].0));
                }
            }
        }
        i = i + 1;
    }
    assert(es.take(es.len() as int) =~= es);
    true
}

/// The largest sequence number.
fn max_seq(entries: &Vec<(Vec<u8>, MemEntry)>) -> (r: u64)
    ensures
        r == max_seq_of(pairs(entries@)),
{
    let ghost es = pairs(entries@);
    let mut r: u64 = 0;
    let mut i: usize = 0;
    assert(es.take(0) =~= Seq::<Entry>::empty());
    while i < entries.len()
        invariant
            i <= entries@.len(),
            es == pairs(entries@),
            r == max_seq_of(es.take(i as int)),
        decreases entries@.len() - i,
    {
        proof {
            let t = es.take(i + 1);
            assert(t.drop_last() =~= es.take(i as int));
            assert(t.last() == es[i as int]);
        }
        if entries[i].1.seq > r {
            r = entries[i].1.seq;
        }
        i = i + 1;
    }
    assert(es.take(i as int) =~= es);
    r
}

/// What opening `data` fails with, where it is no table file.
pub open spec fn open_error(data: Seq<u8>) -> EngineError {
    if data.len() < FOOTER_SIZE {
        EngineError::UnexpectedEof
    } else {
        EngineError::InvalidData
    }
}

impl SSTable {
    /// Open a table file: `UnexpectedEof` where it is shorter than a footer,
    /// `InvalidData` where its footer, index or filter are not those of one. Blocks are
    /// looked at when they are read.
    pub fn open(name: String, data: Vec<u8>, level: u32) -> (r: Result<SSTable, EngineError>)
        ensures
            match r {
                Ok(t) => {
                    &&& t.wf()
                    &&& t.name() == name@
                    &&& t.level() == level
                    &&& t.bytes() == data@
                    &&& table_entries(data@) == Some(t.entries())
                },
                Err(e) => table_entries(data@) is None && e == open_error(data@),
            },
    {
        let n: usize = data.len();
        if n < FOOTER_SIZE {
            return Err(EngineError::UnexpectedEof);
        }
        let end: usize = n - FOOTER_SIZE;
        let index_at: u64 = get_le(data.as_slice(), end, 8);
        let bloom_at: u64 = get_le(data.as_slice(), end + 8, 8);
        let bloom_len: u64 = get_le(data.as_slice(), end + 16, 8);
        let entry_count: u64 = get_le(data.as_slice(), end + 24, 8);
        let block_count: u64 = get_le(data.as_slice(), end + 32, 8);
        let max_write_seq: u64 = get_le(data.as_slice(), end + 40, 8);
        let magic: u64 = get_le(data.as_slice(), end + 48, 8);
        if magic != MAGIC {
            return Err(EngineError::InvalidData);
        }
        if index_at > bloom_at || bloom_at > end as u64 || bloom_len != end as u64 - bloom_at {
            return Err(EngineError::InvalidData);
        }
        assert(footer_ok(data@));
        let index_offset: usize = index_at as usize;
        let bloom_offset: usize = bloom_at as usize;
        let bloom: BloomFilter = match read_filter(
            slice_subrange(data.as_slice(), bloom_offset, end),
        ) {
            Some(f) => f,
            None => {
                return Err(EngineError::InvalidData);
            },
        };
        let index: SortedMap<u64> = match read_index(
            slice_subrange(data.as_slice(), index_offset, bloom_offset),
        ) {
            Some(m) => m,
            None => {
                return Err(EngineError::InvalidData);
            },
        };
        if index.len() as u64 != block_count || !offsets_fit(&index, index_at) {
            return Err(EngineError::InvalidData);
        }
        Ok(SSTable { name, level, data, index_offset, index, bloom, entry_count, max_write_seq })
    }
}

// ---- reading -------------------------------------------------------------------

/// Of the blocks from `j` on there is a last one that starts no later than `key`.
proof fn lemma_last_start(ix: Seq<(Seq<u8>, u64)>, key: Seq<u8>, j: int)
    requires
        0 <= j < ix.len(),
        !lex_lt(key, ix[j].0),
    ensures
        exists|k: int| leads_to(ix, key, k),
    decreases ix.len() - j,
{
    if j + 1 < ix.len() && !lex_lt(key, ix[j + 1].0) {
        lemma_last_start(ix, key, j + 1);
    } else {
        assert(leads_to(ix, key, j));
    }
}

/// The entry with the key `key` in a list.
pub(crate) fn find_in(found: &Vec<(Vec<u8>, MemEntry)>, key: &[u8]) -> (r: Option<MemEntry>)
    requires
        keys_ascend(pairs(found@)),
    ensures
        match r {
            Some(e) => assoc(pairs(found@)).contains_key(key@) && e.model() == assoc(
                pairs(found@),
            )[key@],
            None => !assoc(pairs(found@)).contains_key(key@),
        },
{
    let ghost part = pairs(found@);
    let mut i: usize = 0;
    while i < found.len()
        invariant
            i <= found@.len(),
            part == pairs(found@),
            keys_ascend(part),
            forall|k: int| 0 <= k < i ==> (#[trigger] part[k]).0 != key@,
        decreases found@.len() - i,
    {
        assert(part[i as int] == (found@[i as int].0@, found@[i as int].1.model()));
        if bytes_eq(found[i].0.as_slice(), key) {
            proof {
                lemma_assoc_index(part, i as int);
            }
            return Some(found[i].1.copy());
        }
        i = i + 1;
    }
    proof {
        lemma_assoc_contains(part, key@);
        if assoc(part).contains_key(key@) {
            let k = choose|k: int| holds_key(part, key@, k);
            assert(holds_key(part, key@, k));
        }
    }
    None
}

impl SSTable {
    /// How many blocks there are.
    pub fn block_count(&self) -> (n: usize)
        requires
            self.wf(),
        ensures
            n == self.index().len(),
    {
        self.index.len()
    }

    /// Where block `j` stands in the file.
    pub fn block_offset(&self, j: usize) -> (r: u64)
        requires
            self.wf(),
            j < self.index().len(),
        ensures
            r == self.index()[j as int].1,
    {
        *self.index.value_at(j)
    }

    /// The body of block `j`.
    pub open spec fn block(&self, j: int) -> Seq<u8> {
        unframe(block_raw(self.bytes(), j))->0
    }

    /// Whether the entries are such as block `j` can have.
    fn fits_block(&self, j: usize, v: &Vec<(Vec<u8>, MemEntry)>) -> (r: bool)
        requires
            self.wf(),
            j < self.index().len(),
        ensures
            r == belongs(self.bytes(), j as int, pairs(v@)),
    {
        let ghost es = pairs(v@);
        let n: usize = v.len();
        if n == 0 {
            return false;
        }
        proof {
            lemma_section_covers(bloom_in(self.data@), &self.bloom, es);
            assert(es[0].0 == v@[0].0@ && es[n - 1].0 == v@[n - 1].0@);
        }
        if !bytes_eq(v[0].0.as_slice(), self.index.key_at(j).as_slice()) {
            return false;
        }
        if j < self.index.len() - 1 && !bytes_lt(
            v[n - 1].0.as_slice(),
            self.index.key_at(j + 1).as_slice(),
        ) {
            return false;
        }
        is_ascending(v) && filter_covers(&self.bloom, v) && max_seq(v) <= self.max_write_seq
    }

    /// The body of block `j` with its entries; `InvalidData` where it is damaged.
    pub(crate) fn read_block(&self, j: usize) -> (r: Result<
        (Vec<u8>, Vec<(Vec<u8>, MemEntry)>),
        EngineError,
    >)
        requires
            self.wf(),
            j < self.index().len(),
        ensures
            match r {
                Ok(x) => x.0@ == self.block(j as int) && self.part(j as int) == Some(pairs(x.1@)),
                Err(e) => e == EngineError::InvalidData && self.part(j as int) is None,
            },
    {
        proof {
            self.lemma_bounds(j as int);
        }
        let from: usize = *self.index.value_at(j) as usize;
        let n: usize = self.index.len();
        let to: usize = if j < n - 1 {
            *self.index.value_at(j + 1) as usize
        } else {
            self.index_offset
        };
        let raw: &[u8] = slice_subrange(self.data.as_slice(), from, to);
        assert(raw@ =~= block_raw(self.data@, j as int));
        match checked_body(raw) {
            Some(body) => match read_body(body.as_slice()) {
                Some(v) => if self.fits_block(j, &v) {
                    Ok((body, v))
                } else {
                    Err(EngineError::InvalidData)
                },
                None => Err(EngineError::InvalidData),
            },
            None => Err(EngineError::InvalidData),
        }
    }

    /// Blocks lie before the index.
    proof fn lemma_bounds(&self, j: int)
        requires
            self.wf(),
            0 <= j < self.index().len(),
        ensures
            self.index()[j].1 <= block_end(self.data@, j) <= self.index_offset
                <= self.data@.len() <= usize::MAX,
            j + 1 < self.index().len() ==> self.index()[j].1 < self.index()[j + 1].1
                <= self.index_offset,
    {
        assert(self.data.len() <= usize::MAX);
        let ix = self.index();
        assert(ix[j].1 <= footer_field(self.data@, 0));
        if j + 1 < ix.len() {
            assert(ix[j].1 < ix[j + 1].1);
        }
    }

    /// The body of block `j`; `InvalidData` where it is damaged.
    pub fn block_data(&self, j: usize) -> (r: Result<Vec<u8>, EngineError>)
        requires
            self.wf(),
            j < self.index().len(),
        ensures
            match r {
                Ok(b) => b@ == self.block(j as int) && self.part(j as int) is Some,
                Err(e) => e == EngineError::InvalidData && self.part(j as int) is None,
            },
    {
        match self.read_block(j) {
            Ok((body, _)) => Ok(body),
            Err(e) => Err(e),
        }
    }

    /// The entries of block `j`; `InvalidData` where it is damaged.
    pub fn load_block(&self, j: usize) -> (r: Result<Vec<(Vec<u8>, MemEntry)>, EngineError>)
        requires
            self.wf(),
            j < self.index().len(),
        ensures
            match r {
                Ok(v) => self.part(j as int) == Some(pairs(v@)),
                Err(e) => e == EngineError::InvalidData && self.part(j as int) is None,
            },
    {
        match self.read_block(j) {
            Ok((_, v)) => Ok(v),
            Err(e) => Err(e),
        }
    }

    /// Look up what was last written to `key`; `InvalidData` where the block in which it
    /// would stand is damaged.
    pub fn entry(&self, key: &[u8]) -> (r: Result<Option<MemEntry>, EngineError>)
        requires
            self.wf(),
        ensures
            match r {
                Ok(Some(e)) => self@.contains_key(key@) && e.model() == self@[key@]
                    && !self.hides(key@),
                Ok(None) => !self@.contains_key(key@) && !self.hides(key@),
                Err(e) => e == EngineError::InvalidData && self.hides(key@)
                    && !self@.contains_key(key@),
            },
    {
        if !self.may_hold(key) {
            return Ok(None);
        }
        let j: usize = match self.block_of(key) {
            Some(j) => j,
            None => {
                proof {
                    self.lemma_leads_nowhere(key@);
                }
                return Ok(None);
            },
        };
        proof {
            self.lemma_leads_to(key@, j as int);
            self.lemma_hides(key@, j as int);
        }
        match self.load_block(j) {
            Ok(v) => Ok(find_in(&v, key)),
            Err(e) => Err(e),
        }
    }

    /// Look up a key: its value, `Some(None)` for a tombstone, or `None`; `InvalidData`
    /// where the block in which it would stand is damaged.
    pub fn get(&self, key: &[u8]) -> (r: Result<Option<Option<Vec<u8>>>, EngineError>)
        requires
            self.wf(),
        ensures
            match r {
                Ok(Some(v)) => self@.contains_key(key@) && v.model() == self@[key@].value
                    && !self.hides(key@),
                Ok(None) => !self@.contains_key(key@) && !self.hides(key@),
                Err(e) => e == EngineError::InvalidData && self.hides(key@)
                    && !self@.contains_key(key@),
            },
    {
        match self.entry(key) {
            Ok(Some(e)) => Ok(Some(e.value)),
            Ok(None) => Ok(None),
            Err(e) => Err(e),
        }
    }

    /// The entries that can be read, in key order.
    pub fn scan_intact(&self) -> (r: Vec<(Vec<u8>, MemEntry)>)
        requires
            self.wf(),
        ensures
            pairs(r@) == self.entries(),
    {
        let n: usize = self.index.len();
        let mut out: Vec<(Vec<u8>, MemEntry)> = Vec::new();
        let mut j: usize = 0;
        assert(pairs(out@) =~= intact(self.bytes(), 0));
        while j < n
            invariant
                self.wf(),
                j <= n,
                n == self.index().len(),
                pairs(out@) == intact(self.bytes(), j as int),
            decreases n - j,
        {
            match self.load_block(j) {
                Ok(v) => {
                    let ghost before = out@;
                    let ghost w = v@;
                    let mut more: Vec<(Vec<u8>, MemEntry)> = v;
                    out.append(&mut more);
                    assert(pairs(out@) =~= pairs(before) + pairs(w));
                },
                Err(_) => {},
            }
            j = j + 1;
        }
        out
    }

    /// Whether a block is damaged.
    pub fn check_damage(&self) -> (r: bool)
        requires
            self.wf(),
        ensures
            r == self.is_damaged(),
    {
        let n: usize = self.index.len();
        let mut j: usize = 0;
        while j < n
            invariant
                self.wf(),
                j <= n,
                n == self.index().len(),
                forall|i: int| 0 <= i < j ==> #[trigger] self.part(i) is Some,
            decreases n - j,
        {
            if self.load_block(j).is_err() {
                assert(self.part(j as int) is None);
                return true;
            }
            j = j + 1;
        }
        false
    }

    /// All the entries in key order; `InvalidData` where a block is damaged.
    pub fn scan_all(&self) -> (r: Result<Vec<(Vec<u8>, MemEntry)>, EngineError>)
        requires
            self.wf(),
        ensures
            match r {
                Ok(v) => pairs(v@) == self.entries() && !self.is_damaged(),
                Err(e) => e == EngineError::InvalidData && self.is_damaged(),
            },
    {
        if self.check_damage() {
            return Err(EngineError::InvalidData);
        }
        Ok(self.scan_intact())
    }

    /// Whether the filter says that `key` may be there.
    pub fn may_hold(&self, key: &[u8]) -> (r: bool)
        requires
            self.wf(),
        ensures
            r == self.bloom().covers(key@),
            !r ==> !self@.contains_key(key@) && !self.hides(key@),
    {
        let r: bool = self.bloom.may_contain(key);
        proof {
            if !r && self@.contains_key(key@) {
                let j = self.lemma_stands_in(key@);
                let es = self.part(j)->0;
                let m = choose|m: int| holds_key(es, key@, m);
                assert(holds_key(es, key@, m));
                lemma_section_covers(bloom_in(self.data@), &self.bloom, es);
                assert(self.bloom.covers(es[m].0));
            }
        }
        r
    }

    /// A key that can be read stands in a block that is not damaged and that it leads to.
    proof fn lemma_stands_in(&self, key: Seq<u8>) -> (j: int)
        requires
            self.wf(),
            self@.contains_key(key),
        ensures
            leads_to(self.index(), key, j),
            self.part(j) is Some,
            exists|m: int| holds_key(self.part(j)->0, key, m),
            assoc(self.part(j)->0).contains_key(key),
            assoc(self.part(j)->0)[key] == self@[key],
            belongs(self.bytes(), j, self.part(j)->0),
    {
        let data = self.bytes();
        let all = self.entries();
        let n = self.index().len() as int;
        self.lemma_wf();
        lemma_lex_order();
        lemma_assoc_contains(all, key);
        let i = choose|i: int| holds_key(all, key, i);
        assert(holds_key(all, key, i));
        lemma_assoc_index(all, i);
        let e = all[i];
        assert(intact(data, n).contains(e));
        lemma_intact_holds(data, n, e);
        let j = choose|j: int|
            0 <= j < n && #[trigger] block_entries(data, j) is Some && (block_entries(
                data,
                j,
            )->0).contains(e);
        let es = self.part(j)->0;
        let m = choose|m: int| 0 <= m < es.len() && es[m] == e;
        assert(holds_key(es, key, m));
        lemma_assoc_contains(es, key);
        lemma_assoc_index(es, m);
        if m > 0 {
            assert(lex_lt(es[0].0, es[m].0));
        }
        if m < es.len() - 1 {
            assert(lex_lt(es[m].0, es[es.len() - 1].0));
        }
        j
    }

    /// The block in which `key` stands if it is there: the last one that starts with it
    /// or before it.
    pub fn block_of(&self, key: &[u8]) -> (r: Option<usize>)
        requires
            self.wf(),
        ensures
            match r {
                Some(j) => leads_to(self.index(), key@, j as int),
                None => forall|j: int| !#[trigger] leads_to(self.index(), key@, j),
            },
    {
        let ghost ix = self.index.pairs();
        proof {
            self.lemma_wf();
            lemma_lex_order();
        }
        let i: usize = self.index.lower_bound(key);
        let n: usize = self.index.len();
        let found: bool = i < n && bytes_eq(self.index.key_at(i).as_slice(), key);
        if !found && i == 0 {
            proof {
                assert forall|j: int| !#[trigger] leads_to(ix, key@, j) by {
                    if 0 <= j < ix.len() {
                        assert(!lex_lt(ix[0].0, key@));
                        lemma_lex_total(ix[0].0, key@);
                        if j > 0 {
                            assert(lex_lt(ix[0].0, ix[j].0));
                        }
                    }
                }
            }
            return None;
        }
        let j: usize = if found {
            i
        } else {
            i - 1
        };
        proof {
            assert(ix[j as int].0 == key@ || lex_lt(ix[j as int].0, key@));
            if j + 1 < n {
                if found {
                    assert(lex_lt(ix[j as int].0, ix[j + 1].0));
                } else {
                    assert(!lex_lt(ix[i as int].0, key@));
                    lemma_lex_total(ix[i as int].0, key@);
                }
            }
            assert(leads_to(ix, key@, j as int));
        }
        Some(j)
    }

    /// A key that leads to no block is not there.
    pub proof fn lemma_leads_nowhere(&self, key: Seq<u8>)
        requires
            self.wf(),
            forall|j: int| !#[trigger] leads_to(self.index(), key, j),
        ensures
            !self@.contains_key(key),
            !self.hides(key),
    {
        if self@.contains_key(key) {
            let j = self.lemma_stands_in(key);
            assert(leads_to(self.index(), key, j));
        }
    }

    /// Blocks stand at different offsets.
    pub proof fn lemma_offsets_differ(&self, i: int, j: int)
        requires
            self.wf(),
            0 <= i < self.index().len(),
            0 <= j < self.index().len(),
            self.index()[i].1 == self.index()[j].1,
        ensures
            i == j,
    {
        let ix = self.index();
        if i < j {
            assert(ix[i].1 < ix[j].1);
        } else if j < i {
            assert(ix[j].1 < ix[i].1);
        }
    }

    /// A key leads to one block only.
    pub proof fn lemma_leads_once(&self, key: Seq<u8>, i: int, j: int)
        requires
            self.wf(),
            leads_to(self.index(), key, i),
            leads_to(self.index(), key, j),
        ensures
            i == j,
    {
        let ix = self.index();
        self.lemma_wf();
        lemma_lex_order();
        if i < j {
            if i + 1 < j {
                assert(lex_lt(ix[i + 1].0, ix[j].0));
            }
        } else if j < i {
            if j + 1 < i {
                assert(lex_lt(ix[j + 1].0, ix[i].0));
            }
        }
    }

    /// A key that the filter lets pass cannot be looked up if the block that it leads to
    /// is damaged.
    pub proof fn lemma_hides(&self, key: Seq<u8>, j: int)
        requires
            self.wf(),
            leads_to(self.index(), key, j),
            self.bloom().covers(key),
        ensures
            self.hides(key) <==> self.part(j) is None,
    {
        if self.hides(key) {
            let k = choose|k: int| #[trigger]
                leads_to(self.index(), key, k) && self.part(k) is None;
            self.lemma_leads_once(key, j, k);
        }
    }

    /// A key stands in the block that it leads to, or nowhere.
    pub proof fn lemma_leads_to(&self, key: Seq<u8>, j: int)
        requires
            self.wf(),
            leads_to(self.index(), key, j),
        ensures
            match self.part(j) {
                Some(es) => {
                    &&& keys_ascend(es)
                    &&& assoc(es).contains_key(key) == self@.contains_key(key)
                    &&& self@.contains_key(key) ==> assoc(es)[key] == self@[key]
                },
                None => !self@.contains_key(key),
            },
    {
        let data = self.bytes();
        let n = self.index().len() as int;
        self.lemma_wf();
        if self@.contains_key(key) {
            let k = self.lemma_stands_in(key);
            self.lemma_leads_once(key, j, k);
        }
        if let Some(es) = self.part(j) {
            lemma_assoc_contains(es, key);
            if assoc(es).contains_key(key) {
                let m = choose|m: int| holds_key(es, key, m);
                assert(holds_key(es, key, m));
                assert(es.contains(es[m]));
                lemma_intact_holds(data, n, es[m]);
                assert(intact(data, n).contains(es[m]));
                let all = self.entries();
                let i = choose|i: int| 0 <= i < all.len() && all[i] == es[m];
                assert(holds_key(all, key, i));
                lemma_assoc_contains(all, key);
            }
        }
    }

    /// The body of a block that is not damaged holds its entries.
    pub proof fn lemma_block(&self, j: int)
        ensures
            self.part(j) is Some ==> parse_body(self.block(j)) == self.part(j),
    {
    }

    /// The name of the file.
    pub fn file_name(&self) -> (r: &String)
        ensures
            r@ == self.name(),
    {
        &self.name
    }

    /// The level that the table belongs to.
    pub fn file_level(&self) -> (r: u32)
        ensures
            r == self.level(),
    {
        self.level
    }

    /// The bytes of the file.
    pub fn file_data(&self) -> (r: &Vec<u8>)
        ensures
            r@ == self.bytes(),
    {
        &self.data
    }

    /// How many entries were written to the file, as its footer gives it.
    pub fn entry_count(&self) -> (n: u64)
        requires
            self.wf(),
        ensures
            n == footer_field(self.bytes(), 3),
    {
        self.entry_count
    }

    /// The largest sequence number that was written to the file.
    pub fn max_write_seq(&self) -> (n: u64)
        requires
            self.wf(),
        ensures
            n == self.newest(),
    {
        self.max_write_seq
    }
}

// ---- laws ----------------------------------------------------------------------

/// A table hides a key only if the block in which it would stand is damaged, and a key in a
/// block that can be read is found there.
pub proof fn law_what_a_table_hides(t: &SSTable, key: &[u8], j: int, r: Result<Option<MemEntry>, EngineError>)
    requires
        t.wf(),
        leads_to(t.index(), key@, j),
        call_ensures(SSTable::entry, (t, key), r),
    ensures
        t.part(j) is Some ==> !t.hides(key@) && r is Ok,
        t.hides(key@) ==> t.part(j) is None && r == Err::<Option<MemEntry>, EngineError>(
            EngineError::InvalidData,
        ),
        t.part(j) is Some ==> forall|i: int|
            0 <= i < (t.part(j)->0).len() && (#[trigger] (t.part(j)->0)[i]).0 == key@ ==> (r matches Ok(
                Some(e),
            ) && e.model() == (t.part(j)->0)[i].1),
{
    t.lemma_leads_to(key@, j);
    if t.hides(key@) {
        let k = choose|k: int| #[trigger] leads_to(t.index(), key@, k) && t.part(k) is None;
        t.lemma_leads_once(key@, j, k);
    }
    if t.part(j) is Some {
        let es = t.part(j)->0;
        assert forall|i: int| 0 <= i < es.len() && (#[trigger] es[i]).0 == key@ implies (
        r matches Ok(Some(e)) && e.model() == es[i].1) by {
            lemma_assoc_index(es, i);
        }
    }
}

/// A file that is shorter than a footer is refused as cut short, any other that is no table
/// as invalid.
pub proof fn law_why_a_file_is_refused(name: String, data: Vec<u8>, level: u32, e: EngineError)
    requires
        call_ensures(SSTable::open, (name, data, level), Err(e)),
    ensures
        data@.len() < 56 ==> e == EngineError::UnexpectedEof,
        data@.len() >= 56 ==> e == EngineError::InvalidData,
{
}

/// The filter of a table is made for as many keys as it has entries.
pub proof fn law_filter_is_made_for_the_entries(n: nat)
    requires
        0 < n <= usize::MAX / 16,
    ensures
        filter_capacity(n) == n,
        filter_capacity(0) == 1,
{
}

} // verus!
