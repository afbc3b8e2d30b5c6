//! How many bytes records add to what waits in memory.

use crate::layers::{in_range, live, Layer};
use crate::memtable::size_sum;
use crate::replay::replay;
use crate::wal::Record;
use vstd::prelude::*;

verus! {

/// What tombstones for these keys count for: each its key, and eight bytes for its
/// sequence number.
pub open spec fn tombstone_bytes(keys: Set<Seq<u8>>) -> nat
    decreases keys.len(),
{
    if keys.finite() && keys.len() > 0 {
        let k = keys.choose();
        tombstone_bytes(keys.remove(k)) + k.len() + 8
    } else {
        0
    }
}

/// The keys from `from` up to `to` that have a value.
pub open spec fn keys_hit(c: Layer, from: Seq<u8>, to: Seq<u8>) -> Set<Seq<u8>> {
    live(c).dom().filter(|k: Seq<u8>| in_range(k, from, to))
}

/// What a record counts for where `c` was written before: its keys and values, and
/// eight bytes for each sequence number. A range counts for the tombstones that it
/// leaves.
pub open spec fn record_bytes(c: Layer, r: Record) -> nat {
    match r {
        Record::Put { key, value, .. } => key.len() + value.len() + 8,
        Record::PutTtl { key, value, .. } => key.len() + value.len() + 8,
        Record::Delete { key, .. } => key.len() + 8,
        Record::DeleteRange { from, to, .. } => tombstone_bytes(keys_hit(c, from, to)),
    }
}

/// What a sequence of records counts for on top of `base`.
pub open spec fn replay_bytes(base: Layer, rs: Seq<Record>) -> nat
    decreases rs.len(),
{
    if rs.len() == 0 {
        0
    } else {
        let less = rs.drop_last();
        size_sum(
            replay_bytes(base, less),
            record_bytes(base.union_prefer_right(replay(base, less)), rs.last()),
        )
    }
}

/// One more key adds its bytes, whichever is taken first.
pub proof fn lemma_tombstone_bytes(keys: Set<Seq<u8>>, k: Seq<u8>)
    requires
        keys.finite(),
        keys.contains(k),
    ensures
        tombstone_bytes(keys) == tombstone_bytes(keys.remove(k)) + k.len() + 8,
    decreases keys.len(),
{
    let c = keys.choose();
    if c != k {
        let less = keys.remove(c);
        lemma_tombstone_bytes(less, k);
        assert(less.remove(k) =~= keys.remove(k).remove(c));
        lemma_tombstone_bytes(keys.remove(k), c);
    }
}

/// No keys count for nothing.
pub proof fn lemma_no_tombstones(keys: Set<Seq<u8>>)
    requires
        forall|k: Seq<u8>| !keys.contains(k),
    ensures
        tombstone_bytes(keys) == 0,
{
    assert(keys =~= Set::<Seq<u8>>::empty());
}

/// What a write adds to what waits in memory: the bytes of its key and its value, and eight
/// for its number.
pub proof fn law_bytes_of_a_write(
    c: Layer,
    key: Seq<u8>,
    value: Seq<u8>,
    seq: u64,
    expires_at: u64,
)
    ensures
        record_bytes(c, Record::Put { key, seq, value }) == key.len() + value.len() + 8,
        record_bytes(c, Record::PutTtl { key, seq, value, expires_at }) == key.len() + value.len()
            + 8,
        record_bytes(c, Record::Delete { key, seq }) == key.len() + 8,
{
}

} // verus!
