//! The format of a table file: a sorted run of entries that never changes.
//!
//! - blocks: for each `[len u32 LE][body][crc32 of the body u32 LE]`, and in the body
//!   `[entry_count u32 LE]` and the entries, each `[key_len u32 LE][key][seq u64 LE][tag u8]`,
//!   then for tag 0, a value, `[val_len u32 LE][val]`; for tag 1, a tombstone, nothing;
//!   for tag 2, a value that expires, `[expires_at u64 LE][val_len u32 LE][val]`
//! - sparse index: for each block `[key_len u32 LE][first key][offset u64 LE]`
//! - bloom filter
//! - footer: `[index_offset u64 LE][bloom_offset u64 LE][bloom_len u64 LE]
//!   [entry_count u64 LE][block_count u64 LE][max_write_seq u64 LE][magic u64 LE]`
//!
//! A file whose footer, index and filter are sound is a table, also where blocks of it
//! are damaged: the entries of the other blocks can be read.

use crate::bloom::{has_bit, probed_bit};
use crate::bytes::{le_bytes, le_value, lemma_le_round_trip, lemma_lex_order, lemma_lex_total,
    lemma_pow256_values, lex_lt};
use crate::codec::{lemma_take_le, lemma_take_le_splits, lemma_take_lp_le, lemma_take_lp_le_splits,
    lp_le, take_le, take_lp_le};
use crate::crc::{crc32, law_changed_byte_changes_checksum};
use crate::memtable::Version;
use crate::sorted_map::keys_ascend;
use vstd::prelude::*;

verus! {

/// The number at the end of every table file.
pub const MAGIC: u64 = 0xCAFE_F00D_1234_5678;

/// How long the footer is.
pub const FOOTER_SIZE: usize = 56;

/// A block whose entries take this many bytes gets no more of them.
pub const BLOCK_SIZE: u64 = 4096;

/// A key and what was last written to it.
pub type Entry = (Seq<u8>, Version);

/// The entry can be written: its lengths take four bytes each, and only a
/// value expires.
pub open spec fn storable(e: Entry) -> bool {
    &&& e.0.len() < 0x1_0000_0000
    &&& match e.1.value {
        Some(v) => v.len() < 0x1_0000_0000,
        None => e.1.expires_at == 0,
    }
}

/// Every entry of a sequence can be written.
pub open spec fn all_storable(es: Seq<Entry>) -> bool {
    forall|i: int| 0 <= i < es.len() ==> storable(#[trigger] es[i])
}

// ---- entries -------------------------------------------------------------------

/// The bytes of an entry after its key and sequence number.
pub open spec fn version_bytes(v: Version) -> Seq<u8> {
    match v.value {
        Some(b) => if v.expires_at == 0 {
            seq![0u8] + lp_le(b, 4)
        } else {
            seq![2u8] + (le_bytes(v.expires_at as nat, 8) + lp_le(b, 4))
        },
        None => seq![1u8],
    }
}

/// The bytes of an entry.
#[verifier::opaque]
pub open spec fn entry_bytes(e: Entry) -> Seq<u8> {
    lp_le(e.0, 4) + (le_bytes(e.1.seq as nat, 8) + version_bytes(e.1))
}

/// What follows the sequence number of an entry.
pub open spec fn parse_version(s: Seq<u8>, seq: u64) -> Option<(Version, Seq<u8>)> {
    if s.len() == 0 {
        None
    } else if s[0] == 1 {
        Some((Version { seq, expires_at: 0, value: None }, s.skip(1)))
    } else if s[0] == 0 {
        match take_lp_le(s.skip(1), 4) {
            Some((v, rest)) => Some((Version { seq, expires_at: 0, value: Some(v) }, rest)),
            None => None,
        }
    } else if s[0] == 2 {
        match take_le(s.skip(1), 8) {
            Some((expires_at, r)) => if expires_at == 0 {
                None
            } else {
                match take_lp_le(r, 4) {
                    Some((v, rest)) => Some(
                        (
                            Version { seq, expires_at: expires_at as u64, value: Some(v) },
                            rest,
                        ),
                    ),
                    None => None,
                }
            },
            None => None,
        }
    } else {
        None
    }
}

/// The entry at the front of `s` and what follows it.
#[verifier::opaque]
pub open spec fn parse_entry(s: Seq<u8>) -> Option<(Entry, Seq<u8>)> {
    match take_lp_le(s, 4) {
        Some((key, r1)) => match take_le(r1, 8) {
            Some((seq, r2)) => match parse_version(r2, seq as u64) {
                Some((v, rest)) => Some(((key, v), rest)),
                None => None,
            },
            None => None,
        },
        None => None,
    }
}

/// The bytes of the entries `es`, one behind the other.
pub open spec fn data_bytes(es: Seq<Entry>) -> Seq<u8>
    decreases es.len(),
{
    if es.len() == 0 {
        Seq::empty()
    } else {
        data_bytes(es.drop_last()) + entry_bytes(es.last())
    }
}

proof fn lemma_version_round_trip(v: Version, rest: Seq<u8>)
    requires
        v.value is None ==> v.expires_at == 0,
        v.value matches Some(b) ==> b.len() < 0x1_0000_0000,
    ensures
        parse_version(version_bytes(v) + rest, v.seq) == Some((v, rest)),
{
    lemma_pow256_values();
    let s = version_bytes(v) + rest;
    match v.value {
        Some(b) => {
            lemma_take_lp_le(b, 4, rest);
            if v.expires_at == 0 {
                assert(s.skip(1) =~= lp_le(b, 4) + rest);
            } else {
                let t = lp_le(b, 4) + rest;
                assert(s.skip(1) =~= le_bytes(v.expires_at as nat, 8) + t);
                lemma_take_le(v.expires_at as nat, 8, t);
            }
        },
        None => {
            assert(s.skip(1) =~= rest);
        },
    }
}

/// An entry is read back as it was written.
pub proof fn lemma_entry_round_trip(e: Entry, rest: Seq<u8>)
    requires
        storable(e),
    ensures
        parse_entry(entry_bytes(e) + rest) == Some((e, rest)),
        entry_bytes(e).len() > 0,
{
    reveal(entry_bytes);
    reveal(parse_entry);
    lemma_pow256_values();
    let t2 = version_bytes(e.1) + rest;
    let t1 = le_bytes(e.1.seq as nat, 8) + t2;
    assert(entry_bytes(e) + rest =~= lp_le(e.0, 4) + t1);
    lemma_take_lp_le(e.0, 4, t1);
    lemma_take_le(e.1.seq as nat, 8, t2);
    lemma_version_round_trip(e.1, rest);
}

/// What an entry was read from is what it is written as.
pub proof fn lemma_parse_entry_splits(s: Seq<u8>)
    ensures
        match parse_entry(s) {
            Some((e, rest)) => {
                &&& s == entry_bytes(e) + rest
                &&& storable(e)
                &&& rest.len() < s.len()
            },
            None => true,
        },
{
    reveal(entry_bytes);
    reveal(parse_entry);
    lemma_pow256_values();
    if let Some((e, rest)) = parse_entry(s) {
        lemma_take_lp_le_splits(s, 4);
        let (key, r1) = take_lp_le(s, 4)->0;
        lemma_take_le_splits(r1, 8);
        let (seq, r2) = take_le(r1, 8)->0;
        let t = r2.skip(1);
        assert(r2 =~= seq![r2[0]] + t);
        if r2[0] == 0 {
            lemma_take_lp_le_splits(t, 4);
        } else if r2[0] == 2 {
            lemma_take_le_splits(t, 8);
            let (x, r3) = take_le(t, 8)->0;
            lemma_take_lp_le_splits(r3, 4);
        }
        assert(r2 =~= version_bytes(e.1) + rest);
        assert(s =~= entry_bytes(e) + rest);
        assert(seq as u64 == seq);
    }
}

/// The entries that stand one behind the other in `s`, if it holds nothing else.
pub open spec fn parse_entries(s: Seq<u8>) -> Option<Seq<Entry>>
    decreases s.len(),
{
    proof {
        lemma_parse_entry_splits(s);
    }
    if s.len() == 0 {
        Some(Seq::empty())
    } else {
        match parse_entry(s) {
            Some((e, rest)) => match parse_entries(rest) {
                Some(es) => Some(seq![e] + es),
                None => None,
            },
            None => None,
        }
    }
}

/// The bytes of a sequence of entries with one more in front.
pub proof fn lemma_data_front(e: Entry, es: Seq<Entry>)
    ensures
        data_bytes(seq![e] + es) == entry_bytes(e) + data_bytes(es),
    decreases es.len(),
{
    let all = seq![e] + es;
    if es.len() == 0 {
        assert(all.drop_last() =~= Seq::<Entry>::empty());
        assert(data_bytes(all) == data_bytes(Seq::<Entry>::empty()) + entry_bytes(e));
        assert(data_bytes(all) =~= entry_bytes(e) + data_bytes(es));
    } else {
        lemma_data_front(e, es.drop_last());
        assert(all.drop_last() =~= seq![e] + es.drop_last());
        assert(all.last() == es.last());
        assert(entry_bytes(e) + data_bytes(es.drop_last()) + entry_bytes(es.last()) =~= entry_bytes(
            e,
        ) + (data_bytes(es.drop_last()) + entry_bytes(es.last())));
    }
}

/// Entries are read back as they were written.
pub proof fn lemma_parse_data(es: Seq<Entry>)
    requires
        all_storable(es),
    ensures
        parse_entries(data_bytes(es)) == Some(es),
    decreases es.len(),
{
    if es.len() > 0 {
        let e = es[0];
        let more = es.drop_first();
        assert(es =~= seq![e] + more);
        lemma_data_front(e, more);
        assert(storable(es[0]));
        assert forall|i: int| 0 <= i < more.len() implies storable(#[trigger] more[i]) by {
            assert(more[i] == es[i + 1]);
        }
        lemma_entry_round_trip(e, data_bytes(more));
        lemma_parse_data(more);
    }
}

/// What entries were read from is what they are written as.
pub proof fn lemma_parsed_data(s: Seq<u8>)
    ensures
        match parse_entries(s) {
            Some(es) => s == data_bytes(es) && all_storable(es),
            None => true,
        },
    decreases s.len(),
{
    if s.len() == 0 {
        assert(s =~= Seq::<u8>::empty());
    } else if let Some(es) = parse_entries(s) {
        lemma_parse_entry_splits(s);
        let (e, rest) = parse_entry(s)->0;
        lemma_parsed_data(rest);
        let more = parse_entries(rest)->0;
        lemma_data_front(e, more);
        assert forall|i: int| 0 <= i < es.len() implies storable(#[trigger] es[i]) by {
            if i > 0 {
                assert(es[i] == more[i - 1]);
            }
        }
    }
}

// ---- sequences of sequences ------------------------------------------------------

/// The elements of sequences, one sequence behind the other.
pub open spec fn flat<A>(ss: Seq<Seq<A>>) -> Seq<A>
    decreases ss.len(),
{
    if ss.len() == 0 {
        Seq::empty()
    } else {
        flat(ss.drop_last()) + ss.last()
    }
}

/// Where sequence `j` starts.
pub open spec fn flat_pos<A>(ss: Seq<Seq<A>>, j: int) -> nat {
    flat(ss.take(j)).len()
}

/// A sequence stands where it starts.
pub proof fn lemma_flat_at<A>(ss: Seq<Seq<A>>, j: int)
    requires
        0 <= j < ss.len(),
    ensures
        flat_pos(ss, j) + ss[j].len() == flat_pos(ss, j + 1),
        flat_pos(ss, j + 1) <= flat(ss).len(),
        flat(ss).subrange(flat_pos(ss, j) as int, flat_pos(ss, j + 1) as int) == ss[j],
    decreases ss.len(),
{
    let all = flat(ss);
    assert(ss.take(j + 1).drop_last() =~= ss.take(j));
    assert(ss.take(j + 1).last() == ss[j]);
    let a = flat_pos(ss, j) as int;
    let b = flat_pos(ss, j + 1) as int;
    if j == ss.len() - 1 {
        assert(ss.take(j + 1) =~= ss);
        assert(all.subrange(a, b) =~= ss[j]);
    } else {
        let less = ss.drop_last();
        lemma_flat_at(less, j);
        assert(less.take(j) =~= ss.take(j));
        assert(less.take(j + 1) =~= ss.take(j + 1));
        assert(all.subrange(a, b) =~= flat(less).subrange(a, b));
    }
}

/// Sequences start behind those before them.
pub proof fn lemma_flat_ascends<A>(ss: Seq<Seq<A>>, i: int, j: int)
    requires
        0 <= i <= j <= ss.len(),
    ensures
        flat_pos(ss, i) <= flat_pos(ss, j) <= flat(ss).len(),
    decreases j - i,
{
    if i < j {
        lemma_flat_at(ss, i);
        lemma_flat_ascends(ss, i + 1, j);
    } else if j < ss.len() {
        lemma_flat_at(ss, j);
    } else {
        assert(ss.take(j) =~= ss);
    }
}

/// One more sequence starts where the others end.
pub proof fn lemma_flat_push<A>(ss: Seq<Seq<A>>, s: Seq<A>)
    ensures
        flat(ss.push(s)) == flat(ss) + s,
{
    assert(ss.push(s).drop_last() =~= ss);
}

// ---- blocks --------------------------------------------------------------------

/// Entries in blocks: a block whose entries take [`BLOCK_SIZE`] bytes or more gets no
/// more of them.
pub open spec fn blocks_of(es: Seq<Entry>) -> Seq<Seq<Entry>>
    decreases es.len(),
{
    if es.len() == 0 {
        Seq::empty()
    } else {
        let prev = blocks_of(es.drop_last());
        if prev.len() == 0 || data_bytes(prev.last()).len() >= BLOCK_SIZE {
            prev.push(seq![es.last()])
        } else {
            prev.drop_last().push(prev.last().push(es.last()))
        }
    }
}

/// What a block holds.
pub open spec fn block_body(es: Seq<Entry>) -> Seq<u8> {
    le_bytes(es.len(), 4) + data_bytes(es)
}

/// A body between its length and its checksum.
pub open spec fn framed_block(body: Seq<u8>) -> Seq<u8> {
    le_bytes(body.len(), 4) + body + le_bytes(crc32(body) as nat, 4)
}

/// The bytes of each block.
pub open spec fn frames(bs: Seq<Seq<Entry>>) -> Seq<Seq<u8>> {
    bs.map_values(|b: Seq<Entry>| framed_block(block_body(b)))
}

/// The body of a block, unless it is damaged.
pub open spec fn unframe(raw: Seq<u8>) -> Option<Seq<u8>> {
    if raw.len() < 8 {
        None
    } else {
        let body = raw.subrange(4, raw.len() - 4);
        if raw == framed_block(body) {
            Some(body)
        } else {
            None
        }
    }
}

/// The entries of a body, if it is one.
pub open spec fn parse_body(body: Seq<u8>) -> Option<Seq<Entry>> {
    if body.len() < 4 {
        None
    } else {
        match parse_entries(body.skip(4)) {
            Some(es) => if body.take(4) == le_bytes(es.len(), 4) {
                Some(es)
            } else {
                None
            },
            None => None,
        }
    }
}

/// A block is read back as it was written.
pub proof fn lemma_block_round_trip(es: Seq<Entry>)
    requires
        all_storable(es),
    ensures
        unframe(framed_block(block_body(es))) == Some(block_body(es)),
        parse_body(block_body(es)) == Some(es),
        framed_block(block_body(es)).len() > 0,
{
    let body = block_body(es);
    let raw = framed_block(body);
    lemma_le_round_trip(es.len(), 4);
    lemma_le_round_trip(body.len(), 4);
    lemma_le_round_trip(crc32(body) as nat, 4);
    assert(raw.subrange(4, raw.len() - 4) =~= body);
    assert(body.skip(4) =~= data_bytes(es));
    assert(body.take(4) =~= le_bytes(es.len(), 4));
    lemma_parse_data(es);
}

/// A block of which one byte was changed is found to be damaged.
pub proof fn law_changed_byte_damages_block(body: Seq<u8>, i: int, x: u8)
    requires
        0 <= i < framed_block(body).len(),
        x != framed_block(body)[i],
    ensures
        unframe(framed_block(body).update(i, x)) is None,
{
    let raw = framed_block(body);
    let bad = raw.update(i, x);
    lemma_le_round_trip(body.len(), 4);
    lemma_le_round_trip(crc32(body) as nat, 4);
    let n = body.len() as int;
    let now = bad.subrange(4, bad.len() - 4);
    lemma_le_round_trip(crc32(now) as nat, 4);
    if bad == framed_block(now) {
        if i < 4 {
            assert(bad[i] == le_bytes(now.len(), 4)[i]);
            assert(raw[i] == le_bytes(body.len(), 4)[i]);
        } else if i < 4 + n {
            assert(now =~= body.update(i - 4, x));
            assert(raw[i] == body[i - 4]);
            law_changed_byte_changes_checksum(body, i - 4, x);
            lemma_pow256_values();
            assert(bad.skip(4 + n) =~= raw.skip(4 + n));
            assert(bad.skip(4 + n) =~= le_bytes(crc32(now) as nat, 4));
            assert(raw.skip(4 + n) =~= le_bytes(crc32(body) as nat, 4));
        } else {
            assert(now =~= body);
            assert(bad =~= raw);
        }
    }
}

/// What a body was read from can be written.
pub proof fn lemma_parsed_body(body: Seq<u8>)
    ensures
        parse_body(body) matches Some(es) ==> all_storable(es) && body == block_body(es),
{
    if let Some(es) = parse_body(body) {
        lemma_parsed_data(body.skip(4));
        assert(body =~= body.take(4) + body.skip(4));
    }
}

/// Blocks hold the entries in order, and none is empty.
pub proof fn lemma_blocks(es: Seq<Entry>)
    ensures
        flat(blocks_of(es)) == es,
        forall|j: int| 0 <= j < blocks_of(es).len() ==> (#[trigger] blocks_of(es)[j]).len() > 0,
    decreases es.len(),
{
    let bs = blocks_of(es);
    if es.len() == 0 {
        assert(flat(bs) =~= es);
    } else {
        let less = es.drop_last();
        let e = es.last();
        let prev = blocks_of(less);
        lemma_blocks(less);
        if prev.len() == 0 || data_bytes(prev.last()).len() >= BLOCK_SIZE {
            lemma_flat_push(prev, seq![e]);
            assert(flat(bs) =~= es);
            assert forall|j: int| 0 <= j < bs.len() implies (#[trigger] bs[j]).len() > 0 by {
                if j < prev.len() {
                    assert(bs[j] == prev[j]);
                }
            }
        } else {
            lemma_flat_push(prev.drop_last(), prev.last().push(e));
            assert(flat(prev) == flat(prev.drop_last()) + prev.last());
            assert(es =~= less.push(e));
            assert(flat(bs) =~= less.push(e));
            assert forall|j: int| 0 <= j < bs.len() implies (#[trigger] bs[j]).len() > 0 by {
                if j < prev.len() - 1 {
                    assert(bs[j] == prev[j]);
                }
            }
        }
    }
}

/// An entry of a block stands behind those of the blocks before it.
pub proof fn lemma_block_entry(bs: Seq<Seq<Entry>>, j: int, m: int)
    requires
        0 <= j < bs.len(),
        0 <= m < bs[j].len(),
    ensures
        flat_pos(bs, j) + m < flat(bs).len(),
        flat(bs)[flat_pos(bs, j) + m] == bs[j][m],
{
    lemma_flat_at(bs, j);
    let a = flat_pos(bs, j) as int;
    assert(flat(bs).subrange(a, flat_pos(bs, j + 1) as int)[m] == flat(bs)[a + m]);
}

/// The keys of a block ascend, and come before those of later blocks.
pub proof fn lemma_blocks_ascend(es: Seq<Entry>)
    requires
        keys_ascend(es),
    ensures
        forall|j: int| 0 <= j < blocks_of(es).len() ==> keys_ascend(#[trigger] blocks_of(es)[j]),
        forall|i: int, j: int, m: int, n: int|
            #![trigger blocks_of(es)[i][m], blocks_of(es)[j][n]]
            0 <= i < j < blocks_of(es).len() && 0 <= m < blocks_of(es)[i].len() && 0 <= n
                < blocks_of(es)[j].len() ==> lex_lt(
                blocks_of(es)[i][m].0,
                blocks_of(es)[j][n].0,
            ),
{
    let bs = blocks_of(es);
    lemma_blocks(es);
    assert forall|j: int| 0 <= j < bs.len() implies keys_ascend(#[trigger] bs[j]) by {
        assert forall|m: int, n: int| 0 <= m < n < bs[j].len() implies lex_lt(
            #[trigger] bs[j][m].0,
            #[trigger] bs[j][n].0,
        ) by {
            lemma_block_entry(bs, j, m);
            lemma_block_entry(bs, j, n);
        }
    }
    assert forall|i: int, j: int, m: int, n: int|
        #![trigger bs[i][m], bs[j][n]]
        0 <= i < j < bs.len() && 0 <= m < bs[i].len() && 0 <= n < bs[j].len() implies lex_lt(
        bs[i][m].0,
        bs[j][n].0,
    ) by {
        lemma_block_entry(bs, i, m);
        lemma_block_entry(bs, j, n);
        lemma_flat_at(bs, i);
        lemma_flat_ascends(bs, i + 1, j);
    }
}

// ---- sparse index --------------------------------------------------------------

/// The sparse index: the first key of each block with its offset.
pub open spec fn index_of(bs: Seq<Seq<Entry>>) -> Seq<(Seq<u8>, u64)> {
    Seq::new(bs.len(), |j: int| (bs[j][0].0, flat_pos(frames(bs), j) as u64))
}

/// The bytes of an index entry.
pub open spec fn pointer_bytes(x: (Seq<u8>, u64)) -> Seq<u8> {
    lp_le(x.0, 4) + le_bytes(x.1 as nat, 8)
}

/// The bytes of an index.
pub open spec fn index_bytes(ix: Seq<(Seq<u8>, u64)>) -> Seq<u8>
    decreases ix.len(),
{
    if ix.len() == 0 {
        Seq::empty()
    } else {
        index_bytes(ix.drop_last()) + pointer_bytes(ix.last())
    }
}

/// The index entry at the front of `s` and what follows it.
pub open spec fn parse_pointer(s: Seq<u8>) -> Option<((Seq<u8>, u64), Seq<u8>)> {
    match take_lp_le(s, 4) {
        Some((key, r)) => match take_le(r, 8) {
            Some((offset, rest)) => Some(((key, offset as u64), rest)),
            None => None,
        },
        None => None,
    }
}

/// What an index entry was read from is longer than what is left.
pub proof fn lemma_pointer_shrinks(s: Seq<u8>)
    ensures
        parse_pointer(s) matches Some((x, rest)) ==> rest.len() < s.len(),
{
    if let Some((key, r)) = take_lp_le(s, 4) {
        lemma_take_lp_le_splits(s, 4);
        lemma_take_le_splits(r, 8);
        lemma_le_round_trip(key.len(), 4);
    }
}

/// The index that `s` holds, if it is one.
pub open spec fn parse_index(s: Seq<u8>) -> Option<Seq<(Seq<u8>, u64)>>
    decreases s.len(),
{
    proof {
        lemma_pointer_shrinks(s);
    }
    if s.len() == 0 {
        Some(Seq::empty())
    } else {
        match parse_pointer(s) {
            Some((x, rest)) => match parse_index(rest) {
                Some(ix) => Some(seq![x] + ix),
                None => None,
            },
            None => None,
        }
    }
}

proof fn lemma_index_front(x: (Seq<u8>, u64), ix: Seq<(Seq<u8>, u64)>)
    ensures
        index_bytes(seq![x] + ix) == pointer_bytes(x) + index_bytes(ix),
    decreases ix.len(),
{
    let all = seq![x] + ix;
    if ix.len() == 0 {
        assert(all.drop_last() =~= Seq::<(Seq<u8>, u64)>::empty());
        assert(index_bytes(all.drop_last()) == Seq::<u8>::empty());
        assert(index_bytes(all) =~= pointer_bytes(x) + index_bytes(ix));
    } else {
        lemma_index_front(x, ix.drop_last());
        assert(all.drop_last() =~= seq![x] + ix.drop_last());
        assert(all.last() == ix.last());
        assert(index_bytes(all) =~= pointer_bytes(x) + index_bytes(ix));
    }
}

/// An index is read back as it was written.
pub proof fn lemma_parse_index(ix: Seq<(Seq<u8>, u64)>)
    requires
        forall|j: int| 0 <= j < ix.len() ==> (#[trigger] ix[j]).0.len() < 0x1_0000_0000,
    ensures
        parse_index(index_bytes(ix)) == Some(ix),
    decreases ix.len(),
{
    if ix.len() > 0 {
        let x = ix[0];
        let more = ix.drop_first();
        assert(ix =~= seq![x] + more);
        lemma_index_front(x, more);
        assert forall|j: int| 0 <= j < more.len() implies (#[trigger] more[j]).0.len()
            < 0x1_0000_0000 by {
            assert(more[j] == ix[j + 1]);
        }
        lemma_parse_index(more);
        lemma_pow256_values();
        let rest = index_bytes(more);
        let r = le_bytes(x.1 as nat, 8) + rest;
        assert(index_bytes(ix) =~= lp_le(x.0, 4) + r);
        lemma_take_lp_le(x.0, 4, r);
        lemma_take_le(x.1 as nat, 8, rest);
        lemma_pointer_shrinks(index_bytes(ix));
    }
}

/// Block `j` is the last one that starts with `key` or before it.
pub open spec fn leads_to(ix: Seq<(Seq<u8>, u64)>, key: Seq<u8>, j: int) -> bool {
    &&& 0 <= j < ix.len()
    &&& !lex_lt(key, ix[j].0)
    &&& j + 1 < ix.len() ==> lex_lt(key, ix[j + 1].0)
}

// ---- file ----------------------------------------------------------------------

/// The largest sequence number of a sequence of entries; 0 if there is none.
pub open spec fn max_seq_of(es: Seq<Entry>) -> u64
    decreases es.len(),
{
    if es.len() == 0 {
        0
    } else if es.last().1.seq > max_seq_of(es.drop_last()) {
        es.last().1.seq
    } else {
        max_seq_of(es.drop_last())
    }
}

/// Every entry of a list has a sequence number up to the largest.
pub proof fn lemma_max_seq(es: Seq<Entry>, i: int)
    requires
        0 <= i < es.len(),
    ensures
        es[i].1.seq <= max_seq_of(es),
    decreases es.len(),
{
    if i < es.len() - 1 {
        lemma_max_seq(es.drop_last(), i);
    }
}

/// What bounds every sequence number bounds the largest.
pub proof fn lemma_max_seq_bound(es: Seq<Entry>, m: u64)
    requires
        forall|i: int| 0 <= i < es.len() ==> (#[trigger] es[i]).1.seq <= m,
    ensures
        max_seq_of(es) <= m,
    decreases es.len(),
{
    if es.len() > 0 {
        let less = es.drop_last();
        assert forall|i: int| 0 <= i < less.len() implies (#[trigger] less[i]).1.seq <= m by {
            assert(less[i] == es[i]);
        }
        lemma_max_seq_bound(less, m);
        assert(es[es.len() - 1].1.seq <= m);
    }
}

/// The footer of a file.
pub open spec fn footer_bytes(
    index_offset: nat,
    bloom_offset: nat,
    bloom_len: nat,
    entry_count: nat,
    block_count: nat,
    max_write_seq: nat,
    magic: nat,
) -> Seq<u8> {
    le_bytes(index_offset, 8) + le_bytes(bloom_offset, 8) + le_bytes(bloom_len, 8) + le_bytes(
        entry_count,
        8,
    ) + le_bytes(block_count, 8) + le_bytes(max_write_seq, 8) + le_bytes(magic, 8)
}

/// The number in field `i` of the footer.
pub open spec fn footer_field(data: Seq<u8>, i: int) -> nat {
    le_value(data.subrange(data.len() - 56 + 8 * i, data.len() - 48 + 8 * i))
}

/// The words of a bloom section.
pub open spec fn section_words(b: Seq<u8>) -> Seq<u64> {
    Seq::new(
        ((b.len() - 16) / 8) as nat,
        |i: int| le_value(b.subrange(16 + 8 * i, 24 + 8 * i)) as u64,
    )
}

/// A bloom section that can be probed.
pub open spec fn bloom_sound(b: Seq<u8>) -> bool {
    let num_bits = le_value(b.subrange(0, 8));
    let num_hashes = le_value(b.subrange(8, 16));
    &&& b.len() >= 16
    &&& 0 < num_bits <= section_words(b).len() * 64
    &&& num_bits <= usize::MAX
    &&& num_hashes <= usize::MAX
}

/// A bloom section that can be probed and says of every entry's key that it may be there.
pub open spec fn bloom_section_ok(b: Seq<u8>, es: Seq<Entry>) -> bool {
    let num_bits = le_value(b.subrange(0, 8));
    let num_hashes = le_value(b.subrange(8, 16));
    &&& bloom_sound(b)
    &&& forall|k: int, i: nat|
        0 <= k < es.len() && i < num_hashes ==> has_bit(
            section_words(b),
            #[trigger] probed_bit(#[trigger] es[k].0, i, num_bits),
        )
}

/// The bloom section of a file.
pub open spec fn bloom_in(data: Seq<u8>) -> Seq<u8> {
    data.subrange(footer_field(data, 1) as int, data.len() - FOOTER_SIZE)
}

/// The footer is there and its offsets split the file into its sections.
pub open spec fn footer_ok(data: Seq<u8>) -> bool {
    &&& data.len() >= FOOTER_SIZE
    &&& footer_field(data, 6) == MAGIC
    &&& footer_field(data, 0) <= footer_field(data, 1)
    &&& footer_field(data, 1) + footer_field(data, 2) == data.len() - FOOTER_SIZE
}

/// Keys and offsets of an index ascend, and the offsets lie before `end`.
pub open spec fn index_ok(ix: Seq<(Seq<u8>, u64)>, end: nat) -> bool {
    &&& keys_ascend(ix)
    &&& forall|i: int, j: int|
        0 <= i < j < ix.len() ==> (#[trigger] ix[i]).1 < (#[trigger] ix[j]).1
    &&& forall|j: int| 0 <= j < ix.len() ==> (#[trigger] ix[j]).1 <= end
}

/// The index of a table file; none if `data` is not one.
pub open spec fn table_index(data: Seq<u8>) -> Option<Seq<(Seq<u8>, u64)>> {
    if footer_ok(data) && bloom_sound(bloom_in(data)) {
        match parse_index(
            data.subrange(footer_field(data, 0) as int, footer_field(data, 1) as int),
        ) {
            Some(ix) => if index_ok(ix, footer_field(data, 0)) && ix.len() == footer_field(
                data,
                4,
            ) {
                Some(ix)
            } else {
                None
            },
            None => None,
        }
    } else {
        None
    }
}

/// Where block `j` of a table file ends.
pub open spec fn block_end(data: Seq<u8>, j: int) -> nat {
    let ix = table_index(data)->0;
    if j + 1 < ix.len() {
        ix[j + 1].1 as nat
    } else {
        footer_field(data, 0)
    }
}

/// The bytes of block `j` of a table file.
pub open spec fn block_raw(data: Seq<u8>, j: int) -> Seq<u8> {
    data.subrange((table_index(data)->0)[j].1 as int, block_end(data, j) as int)
}

/// The entries are such as block `j` of a table file can have: they start with the key
/// that the index says, end before the next block, are known to the filter, and have
/// sequence numbers up to the largest of the file.
pub open spec fn belongs(data: Seq<u8>, j: int, es: Seq<Entry>) -> bool {
    let ix = table_index(data)->0;
    &&& es.len() > 0
    &&& es[0].0 == ix[j].0
    &&& keys_ascend(es)
    &&& j + 1 < ix.len() ==> lex_lt(es.last().0, ix[j + 1].0)
    &&& bloom_section_ok(bloom_in(data), es)
    &&& max_seq_of(es) <= footer_field(data, 5)
}

/// The entries of block `j` of a table file, unless it is damaged.
pub open spec fn block_entries(data: Seq<u8>, j: int) -> Option<Seq<Entry>> {
    match unframe(block_raw(data, j)) {
        Some(body) => match parse_body(body) {
            Some(es) => if belongs(data, j, es) {
                Some(es)
            } else {
                None
            },
            None => None,
        },
        None => None,
    }
}

/// The entries of the first `n` blocks that are not damaged.
pub open spec fn intact(data: Seq<u8>, n: int) -> Seq<Entry>
    decreases n,
{
    if n <= 0 {
        Seq::empty()
    } else {
        match block_entries(data, n - 1) {
            Some(es) => intact(data, n - 1) + es,
            None => intact(data, n - 1),
        }
    }
}

/// The entries of a table file that can be read; none if `data` is not one.
pub open spec fn table_entries(data: Seq<u8>) -> Option<Seq<Entry>> {
    match table_index(data) {
        Some(ix) => Some(intact(data, ix.len() as int)),
        None => None,
    }
}

/// The largest sequence number of a table file, as its footer gives it.
pub open spec fn table_newest(data: Seq<u8>) -> u64 {
    footer_field(data, 5) as u64
}

/// The entries of blocks that are not damaged ascend, lie before the block that follows
/// them, and can be written.
pub proof fn lemma_intact(data: Seq<u8>, n: int)
    requires
        table_index(data) is Some,
        0 <= n <= (table_index(data)->0).len(),
    ensures
        keys_ascend(intact(data, n)),
        all_storable(intact(data, n)),
        n < (table_index(data)->0).len() ==> forall|i: int|
            0 <= i < intact(data, n).len() ==> lex_lt(
                #[trigger] intact(data, n)[i].0,
                (table_index(data)->0)[n].0,
            ),
        forall|i: int|
            0 <= i < intact(data, n).len() ==> (#[trigger] intact(data, n)[i]).1.seq
                <= footer_field(data, 5),
    decreases n,
{
    lemma_lex_order();
    let ix = table_index(data)->0;
    let all = intact(data, n);
    if n > 0 {
        lemma_intact(data, n - 1);
        let before = intact(data, n - 1);
        if n < ix.len() {
            assert(lex_lt(ix[n - 1].0, ix[n].0));
        }
        if let Some(es) = block_entries(data, n - 1) {
            lemma_parsed_body(unframe(block_raw(data, n - 1))->0);
            assert forall|i: int, j: int| 0 <= i < j < all.len() implies lex_lt(
                #[trigger] all[i].0,
                #[trigger] all[j].0,
            ) by {
                if j < before.len() {
                    assert(all[i] == before[i] && all[j] == before[j]);
                } else if i < before.len() {
                    assert(all[i] == before[i] && all[j] == es[j - before.len()]);
                    assert(lex_lt(before[i].0, ix[n - 1].0));
                    if j > before.len() {
                        assert(lex_lt(es[0].0, es[j - before.len()].0));
                    }
                } else {
                    assert(all[i] == es[i - before.len()] && all[j] == es[j - before.len()]);
                }
            }
            assert forall|i: int| 0 <= i < all.len() implies storable(#[trigger] all[i]) by {
                if i < before.len() {
                    assert(all[i] == before[i]);
                } else {
                    assert(all[i] == es[i - before.len()]);
                }
            }
            assert forall|i: int| 0 <= i < all.len() && n < ix.len() implies lex_lt(
                #[trigger] all[i].0,
                ix[n].0,
            ) by {
                if i < before.len() {
                    assert(all[i] == before[i]);
                } else {
                    let k = i - before.len();
                    assert(all[i] == es[k]);
                    if k < es.len() - 1 {
                        assert(lex_lt(es[k].0, es[es.len() - 1].0));
                    }
                }
            }
            assert forall|i: int| 0 <= i < all.len() implies (#[trigger] all[i]).1.seq
                <= footer_field(data, 5) by {
                if i < before.len() {
                    assert(all[i] == before[i]);
                } else {
                    lemma_max_seq(es, i - before.len());
                    assert(all[i] == es[i - before.len()]);
                }
            }
        } else {
            assert forall|i: int| 0 <= i < all.len() && n < ix.len() implies lex_lt(
                #[trigger] all[i].0,
                ix[n].0,
            ) by {
                assert(lex_lt(before[i].0, ix[n - 1].0));
            }
        }
    }
}

/// What can be read stands in a block that is not damaged, and the other way.
pub proof fn lemma_intact_holds(data: Seq<u8>, n: int, e: Entry)
    ensures
        intact(data, n).contains(e) <==> exists|j: int|
            0 <= j < n && #[trigger] block_entries(data, j) is Some && (block_entries(
                data,
                j,
            )->0).contains(e),
    decreases n,
{
    if n > 0 {
        lemma_intact_holds(data, n - 1, e);
        let before = intact(data, n - 1);
        let all = intact(data, n);
        if before.contains(e) {
            let i = choose|i: int| 0 <= i < before.len() && before[i] == e;
            assert(all[i] == e);
            let j = choose|j: int|
                0 <= j < n - 1 && #[trigger] block_entries(data, j) is Some && (block_entries(
                    data,
                    j,
                )->0).contains(e);
            assert(block_entries(data, j) is Some);
        }
        if let Some(es) = block_entries(data, n - 1) {
            if es.contains(e) {
                let i = choose|i: int| 0 <= i < es.len() && es[i] == e;
                assert(all[before.len() + i] == e);
            }
            if all.contains(e) && !before.contains(e) {
                let i = choose|i: int| 0 <= i < all.len() && all[i] == e;
                if i < before.len() {
                    assert(before[i] == e);
                } else {
                    assert(es[i - before.len()] == e);
                }
                assert(block_entries(data, n - 1) is Some);
            }
        }
        if exists|j: int|
            0 <= j < n && #[trigger] block_entries(data, j) is Some && (block_entries(
                data,
                j,
            )->0).contains(e) {
            let j = choose|j: int|
                0 <= j < n && #[trigger] block_entries(data, j) is Some && (block_entries(
                    data,
                    j,
                )->0).contains(e);
            if j < n - 1 {
                assert(block_entries(data, j) is Some);
            }
        }
    }
}

/// The file whose sections are the blocks and index of `es` and `bloom`.
pub open spec fn file_bytes(es: Seq<Entry>, bloom: Seq<u8>) -> Seq<u8> {
    let bs = blocks_of(es);
    let d = flat(frames(bs));
    let ix = index_bytes(index_of(bs));
    d + ix + bloom + footer_bytes(
        d.len(),
        d.len() + ix.len(),
        bloom.len(),
        es.len(),
        bs.len(),
        max_seq_of(es) as nat,
        MAGIC as nat,
    )
}

proof fn lemma_footer_field(front: Seq<u8>, a: nat, b: nat, c: nat, d: nat, e: nat, f: nat, g: nat)
    requires
        a <= u64::MAX,
        b <= u64::MAX,
        c <= u64::MAX,
        d <= u64::MAX,
        e <= u64::MAX,
        f <= u64::MAX,
        g <= u64::MAX,
    ensures
        footer_bytes(a, b, c, d, e, f, g).len() == 56,
        ({
            let data = front + footer_bytes(a, b, c, d, e, f, g);
            &&& footer_field(data, 0) == a
            &&& footer_field(data, 1) == b
            &&& footer_field(data, 2) == c
            &&& footer_field(data, 3) == d
            &&& footer_field(data, 4) == e
            &&& footer_field(data, 5) == f
            &&& footer_field(data, 6) == g
        }),
{
    lemma_pow256_values();
    lemma_le_round_trip(a, 8);
    lemma_le_round_trip(b, 8);
    lemma_le_round_trip(c, 8);
    lemma_le_round_trip(d, 8);
    lemma_le_round_trip(e, 8);
    lemma_le_round_trip(f, 8);
    lemma_le_round_trip(g, 8);
    let data = front + footer_bytes(a, b, c, d, e, f, g);
    let n = front.len() as int;
    assert(data.subrange(n, n + 8) =~= le_bytes(a, 8));
    assert(data.subrange(n + 8, n + 16) =~= le_bytes(b, 8));
    assert(data.subrange(n + 16, n + 24) =~= le_bytes(c, 8));
    assert(data.subrange(n + 24, n + 32) =~= le_bytes(d, 8));
    assert(data.subrange(n + 32, n + 40) =~= le_bytes(e, 8));
    assert(data.subrange(n + 40, n + 48) =~= le_bytes(f, 8));
    assert(data.subrange(n + 48, n + 56) =~= le_bytes(g, 8));
}

/// A file is read back as the entries that were written to it, and none of its blocks is
/// damaged.
pub proof fn law_table_round_trip(es: Seq<Entry>, bloom: Seq<u8>)
    requires
        all_storable(es),
        keys_ascend(es),
        bloom_section_ok(bloom, es),
        file_bytes(es, bloom).len() <= u64::MAX,
        es.len() <= u64::MAX,
    ensures
        table_index(file_bytes(es, bloom)) == Some(index_of(blocks_of(es))),
        forall|j: int|
            0 <= j < blocks_of(es).len() ==> #[trigger] block_entries(file_bytes(es, bloom), j)
                == Some(blocks_of(es)[j]),
        table_entries(file_bytes(es, bloom)) == Some(es),
        footer_field(file_bytes(es, bloom), 5) == max_seq_of(es),
        footer_field(file_bytes(es, bloom), 0) == flat(frames(blocks_of(es))).len(),
        footer_field(file_bytes(es, bloom), 3) == es.len(),
        bloom_in(file_bytes(es, bloom)) == bloom,
{
    let bs = blocks_of(es);
    let fs = frames(bs);
    let d = flat(fs);
    let ix = index_of(bs);
    let ib = index_bytes(ix);
    let front = d + ib + bloom;
    let data = file_bytes(es, bloom);
    lemma_blocks(es);
    lemma_blocks_ascend(es);
    lemma_block_count(bs);
    lemma_footer_field(
        front,
        d.len(),
        d.len() + ib.len(),
        bloom.len(),
        es.len(),
        bs.len(),
        max_seq_of(es) as nat,
        MAGIC as nat,
    );
    assert(data.subrange(d.len() as int, (d.len() + ib.len()) as int) =~= ib);
    assert(bloom_in(data) =~= bloom);
    // the index
    assert forall|j: int| 0 <= j < ix.len() implies (#[trigger] ix[j]).0.len() < 0x1_0000_0000
        && ix[j].1 <= d.len() && ix[j].1 == flat_pos(fs, j) by {
        lemma_block_entry(bs, j, 0);
        assert(storable(es[flat_pos(bs, j) as int]));
        lemma_flat_ascends(fs, j, fs.len() as int);
    }
    lemma_parse_index(ix);
    assert forall|i: int, j: int| 0 <= i < j < ix.len() implies lex_lt(
        #[trigger] ix[i].0,
        #[trigger] ix[j].0,
    ) by {
        assert(lex_lt(bs[i][0].0, bs[j][0].0));
    }
    assert forall|i: int, j: int| 0 <= i < j < ix.len() implies (#[trigger] ix[i]).1 < (
    #[trigger] ix[j]).1 by {
        lemma_flat_at(fs, i);
        lemma_flat_ascends(fs, i + 1, j);
        lemma_stored_block(es, bs, i);
        lemma_block_round_trip(bs[i]);
        assert(fs[i] == framed_block(block_body(bs[i])));
    }
    assert(index_ok(ix, d.len()));
    assert(table_index(data) == Some(ix));
    // the blocks
    assert forall|j: int| 0 <= j < bs.len() implies #[trigger] block_entries(data, j) == Some(
        bs[j],
    ) by {
        lemma_flat_at(fs, j);
        assert(fs[j] == framed_block(block_body(bs[j])));
        if j == bs.len() - 1 {
            assert(fs.take(j + 1) =~= fs);
        }
        let a = ix[j].1 as int;
        let b = block_end(data, j) as int;
        assert(b == flat_pos(fs, j + 1));
        assert(data.subrange(a, b) =~= d.subrange(a, b));
        lemma_stored_block(es, bs, j);
        lemma_block_round_trip(bs[j]);
        assert(bloom_section_ok(bloom, bs[j])) by {
            let nb = le_value(bloom.subrange(0, 8));
            let nh = le_value(bloom.subrange(8, 16));
            assert forall|k: int, i: nat| 0 <= k < bs[j].len() && i < nh implies has_bit(
                section_words(bloom),
                #[trigger] probed_bit(#[trigger] bs[j][k].0, i, nb),
            ) by {
                lemma_block_entry(bs, j, k);
                let p = flat_pos(bs, j) + k;
                assert(has_bit(section_words(bloom), probed_bit(es[p as int].0, i, nb)));
            }
        }
        assert(max_seq_of(bs[j]) <= max_seq_of(es)) by {
            assert forall|k: int| 0 <= k < bs[j].len() implies (#[trigger] bs[j][k]).1.seq
                <= max_seq_of(es) by {
                lemma_block_entry(bs, j, k);
                lemma_max_seq(es, flat_pos(bs, j) + k);
            }
            lemma_max_seq_bound(bs[j], max_seq_of(es));
        }
        if j + 1 < bs.len() {
            let m = bs[j].len() - 1;
            assert(lex_lt(bs[j][m].0, bs[j + 1][0].0));
        }
        assert(belongs(data, j, bs[j]));
    }
    lemma_intact_flat(data, bs, bs.len() as int);
    assert(bs.take(bs.len() as int) =~= bs);
}

/// There are no more blocks than entries.
proof fn lemma_block_count(bs: Seq<Seq<Entry>>)
    requires
        forall|j: int| 0 <= j < bs.len() ==> (#[trigger] bs[j]).len() > 0,
    ensures
        bs.len() <= flat(bs).len(),
    decreases bs.len(),
{
    if bs.len() > 0 {
        let less = bs.drop_last();
        assert forall|j: int| 0 <= j < less.len() implies (#[trigger] less[j]).len() > 0 by {
            assert(less[j] == bs[j]);
        }
        lemma_block_count(less);
        assert(bs[bs.len() - 1].len() > 0);
    }
}

/// The entries of a block can be written if all can.
proof fn lemma_stored_block(es: Seq<Entry>, bs: Seq<Seq<Entry>>, j: int)
    requires
        all_storable(es),
        flat(bs) == es,
        0 <= j < bs.len(),
    ensures
        all_storable(bs[j]),
{
    assert forall|k: int| 0 <= k < bs[j].len() implies storable(#[trigger] bs[j][k]) by {
        lemma_block_entry(bs, j, k);
        assert(storable(es[flat_pos(bs, j) + k]));
    }
}

proof fn lemma_intact_flat(data: Seq<u8>, bs: Seq<Seq<Entry>>, n: int)
    requires
        0 <= n <= bs.len(),
        forall|j: int| 0 <= j < bs.len() ==> #[trigger] block_entries(data, j) == Some(bs[j]),
    ensures
        intact(data, n) == flat(bs.take(n)),
    decreases n,
{
    if n > 0 {
        lemma_intact_flat(data, bs, n - 1);
        assert(bs.take(n).drop_last() =~= bs.take(n - 1));
        assert(bs.take(n).last() == bs[n - 1]);
        assert(block_entries(data, n - 1) == Some(bs[n - 1]));
    }
}

// ---- laws ----------------------------------------------------------------------

/// The bytes of an entry: the key behind its length, the number, and a tag with what goes
/// with it: 0 with a value, 1 for a tombstone, 2 with an expiry and a value.
pub proof fn law_bytes_of_entries(key: Seq<u8>, seq: u64, value: Seq<u8>, expires_at: u64)
    requires
        expires_at > 0,
    ensures
        ({
            let head = le_bytes(key.len(), 4) + key + le_bytes(seq as nat, 8);
            let tail = le_bytes(value.len(), 4) + value;
            &&& entry_bytes((key, Version { seq, expires_at: 0, value: Some(value) })) == head + seq![
                0u8,
            ] + tail
            &&& entry_bytes((key, Version { seq, expires_at: 0, value: None })) == head + seq![1u8]
            &&& entry_bytes((key, Version { seq, expires_at, value: Some(value) })) == head + seq![
                2u8,
            ] + le_bytes(expires_at as nat, 8) + tail
        }),
{
    reveal(entry_bytes);
    let head = le_bytes(key.len(), 4) + key + le_bytes(seq as nat, 8);
    let tail = le_bytes(value.len(), 4) + value;
    assert(entry_bytes((key, Version { seq, expires_at: 0, value: Some(value) })) =~= head + seq![
        0u8,
    ] + tail);
    assert(entry_bytes((key, Version { seq, expires_at: 0, value: None })) =~= head + seq![1u8]);
    assert(entry_bytes((key, Version { seq, expires_at, value: Some(value) })) =~= head + seq![2u8]
        + le_bytes(expires_at as nat, 8) + tail);
}

/// The bytes of a block: the length of its body, the body, and the checksum of the body. The
/// body is the number of entries and the entries, one behind the other.
pub proof fn law_bytes_of_blocks(es: Seq<Entry>, e: Entry, body: Seq<u8>)
    ensures
        data_bytes(Seq::empty()) == Seq::<u8>::empty(),
        data_bytes(es.push(e)) == data_bytes(es) + entry_bytes(e),
        block_body(es) == le_bytes(es.len(), 4) + data_bytes(es),
        framed_block(body) == le_bytes(body.len(), 4) + body + le_bytes(crc32(body) as nat, 4),
{
    assert(es.push(e).drop_last() =~= es);
}

/// The bytes of an index: for each block its first key behind its length, and its offset.
pub proof fn law_bytes_of_an_index(ix: Seq<(Seq<u8>, u64)>, key: Seq<u8>, offset: u64)
    ensures
        index_bytes(Seq::empty()) == Seq::<u8>::empty(),
        index_bytes(ix.push((key, offset))) == index_bytes(ix) + le_bytes(key.len(), 4) + key
            + le_bytes(offset as nat, 8),
{
    assert(ix.push((key, offset)).drop_last() =~= ix);
    assert(index_bytes(ix.push((key, offset))) =~= index_bytes(ix) + le_bytes(key.len(), 4) + key
        + le_bytes(offset as nat, 8));
}

/// A block ends with the entry that takes its entries to 4096 bytes; only the last block may
/// have fewer.
pub proof fn law_block_sizes(es: Seq<Entry>, j: int)
    requires
        0 <= j < blocks_of(es).len(),
    ensures
        blocks_of(es)[j].len() > 0,
        data_bytes(blocks_of(es)[j].drop_last()).len() < 4096,
        j < blocks_of(es).len() - 1 ==> data_bytes(blocks_of(es)[j]).len() >= 4096,
    decreases es.len(),
{
    lemma_blocks(es);
    let less = es.drop_last();
    let bs = blocks_of(es);
    let prev = blocks_of(less);
    lemma_blocks(less);
    if j < prev.len() {
        law_block_sizes(less, j);
    }
    if prev.len() == 0 || data_bytes(prev.last()).len() >= 4096 {
        assert(bs == prev.push(seq![es.last()]));
        if j == bs.len() - 1 {
            assert(bs[j].drop_last() =~= Seq::<Entry>::empty());
        }
    } else {
        let last = prev.last().push(es.last());
        assert(bs == prev.drop_last().push(last));
        if j == bs.len() - 1 {
            assert(last.drop_last() =~= prev.last());
        }
    }
}

/// The largest number of entries is that of one of them, and none has a larger one.
pub proof fn law_largest_number(es: Seq<Entry>)
    ensures
        es.len() == 0 ==> max_seq_of(es) == 0,
        forall|i: int| 0 <= i < es.len() ==> (#[trigger] es[i]).1.seq <= max_seq_of(es),
        es.len() > 0 ==> exists|i: int|
            0 <= i < es.len() && (#[trigger] es[i]).1.seq == max_seq_of(es),
    decreases es.len(),
{
    if es.len() > 0 {
        let less = es.drop_last();
        law_largest_number(less);
        assert forall|i: int| 0 <= i < es.len() implies (#[trigger] es[i]).1.seq <= max_seq_of(
            es,
        ) by {
            if i < less.len() {
                assert(less[i] == es[i]);
            }
        }
        if es.last().1.seq > max_seq_of(less) || less.len() == 0 {
            assert(es[es.len() - 1].1.seq == max_seq_of(es));
        } else {
            let i = choose|i: int|
                0 <= i < less.len() && (#[trigger] less[i]).1.seq == max_seq_of(less);
            assert(es[i] == less[i]);
        }
    }
}

/// A key is looked for in the last block whose first key is it or comes before it.
pub proof fn law_where_a_key_is_looked_for(ix: Seq<(Seq<u8>, u64)>, key: Seq<u8>, j: int)
    requires
        0 <= j < ix.len(),
    ensures
        leads_to(ix, key, j) <==> (ix[j].0 == key || lex_lt(ix[j].0, key)) && (j + 1 < ix.len()
            ==> lex_lt(key, ix[j + 1].0)),
{
    lemma_lex_order();
    lemma_lex_total(ix[j].0, key);
}

/// Damage to the bytes of one block costs the entries of no other block: the index can still
/// be read, and so can all other blocks.
pub proof fn law_damage_is_local(data: Seq<u8>, damaged: Seq<u8>, j: int, i: int)
    requires
        table_index(data) is Some,
        0 <= j < (table_index(data)->0).len(),
        damaged.len() == data.len(),
        forall|k: int|
            0 <= k < data.len() && !((table_index(data)->0)[j].1 <= k < block_end(data, j))
                ==> #[trigger] damaged[k] == data[k],
        0 <= i < (table_index(data)->0).len(),
        i != j,
    ensures
        table_index(damaged) == table_index(data),
        block_entries(damaged, i) == block_entries(data, i),
{
    let ix = table_index(data)->0;
    let n = data.len() as int;
    let end = footer_field(data, 0);
    assert(index_ok(ix, end));
    assert(ix[j].1 <= end);
    assert(block_end(data, j) <= end);
    assert forall|f: int| 0 <= f < 7 implies footer_field(damaged, f) == #[trigger] footer_field(
        data,
        f,
    ) by {
        assert(damaged.subrange(n - 56 + 8 * f, n - 48 + 8 * f) =~= data.subrange(
            n - 56 + 8 * f,
            n - 48 + 8 * f,
        ));
    }
    assert(footer_field(damaged, 0) == end);
    assert(footer_field(damaged, 1) == footer_field(data, 1));
    assert(footer_field(damaged, 2) == footer_field(data, 2));
    assert(footer_field(damaged, 4) == footer_field(data, 4));
    assert(footer_field(damaged, 5) == footer_field(data, 5));
    assert(footer_field(damaged, 6) == footer_field(data, 6));
    assert(bloom_in(damaged) =~= bloom_in(data));
    assert(damaged.subrange(end as int, footer_field(data, 1) as int) =~= data.subrange(
        end as int,
        footer_field(data, 1) as int,
    ));
    assert(table_index(damaged) == table_index(data));
    assert(block_end(damaged, i) == block_end(data, i));
    assert(ix[i].1 <= block_end(data, i) <= end) by {
        if i + 1 < ix.len() {
            assert(ix[i].1 < ix[i + 1].1);
            assert(ix[i + 1].1 <= end);
        } else {
            assert(ix[i].1 <= end);
        }
    }
    assert(block_end(data, i) <= ix[j].1 || block_end(data, j) <= ix[i].1) by {
        if i < j {
            if i + 1 < j {
                assert(ix[i + 1].1 < ix[j].1);
            }
        } else if j + 1 < i {
            assert(ix[j + 1].1 < ix[i].1);
        }
    }
    assert(block_raw(damaged, i) =~= block_raw(data, i));
}

/// The entries of every block that can be read are entries of the table.
pub proof fn law_readable_blocks_are_read(data: Seq<u8>, n: int, j: int, e: Entry)
    requires
        0 <= j < n,
        block_entries(data, j) is Some,
        (block_entries(data, j)->0).contains(e),
    ensures
        intact(data, n).contains(e),
    decreases n,
{
    let all = intact(data, n);
    let before = intact(data, n - 1);
    if j == n - 1 {
        let es = block_entries(data, j)->0;
        let i = choose|i: int| 0 <= i < es.len() && es[i] == e;
        assert(all[before.len() + i] == e);
    } else {
        law_readable_blocks_are_read(data, n - 1, j, e);
        let i = choose|i: int| 0 <= i < before.len() && before[i] == e;
        assert(all[i] == e);
    }
}

} // verus!
