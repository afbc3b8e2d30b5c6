//! What the records of a write-ahead log do to a memtable.

use crate::layers::{in_range, lemma_live_below, live, Layer};
use crate::memtable::Version;
use crate::wal::Record;
use vstd::prelude::*;

verus! {

/// A deletion.
pub open spec fn tombstone(seq: u64) -> Version {
    Version { seq, expires_at: 0, value: None }
}

/// The memtable `m` on top of `base` after the keys from `from` up to `to` were
/// deleted: each of them that had a value gets a tombstone.
pub open spec fn range_deleted(
    m: Layer,
    base: Layer,
    from: Seq<u8>,
    to: Seq<u8>,
    seq: u64,
) -> Layer {
    let hit = live(base.union_prefer_right(m));
    Map::new(
        |k: Seq<u8>| m.contains_key(k) || (in_range(k, from, to) && hit.contains_key(k)),
        |k: Seq<u8>|
            if in_range(k, from, to) && hit.contains_key(k) {
                tombstone(seq)
            } else {
                m[k]
            },
    )
}

/// The memtable `m` on top of `base` after one more record.
pub open spec fn apply_record(m: Layer, base: Layer, r: Record) -> Layer {
    match r {
        Record::Put { key, seq, value } => m.insert(
            key,
            Version { seq, expires_at: 0, value: Some(value) },
        ),
        Record::PutTtl { key, seq, value, expires_at } => m.insert(
            key,
            Version { seq, expires_at, value: Some(value) },
        ),
        Record::Delete { key, seq } => m.insert(key, tombstone(seq)),
        Record::DeleteRange { from, to, seq } => range_deleted(m, base, from, to, seq),
    }
}

/// The memtable on top of `base` that a sequence of records makes.
pub open spec fn replay(base: Layer, rs: Seq<Record>) -> Layer
    decreases rs.len(),
{
    if rs.len() == 0 {
        Map::empty()
    } else {
        apply_record(replay(base, rs.drop_last()), base, rs.last())
    }
}

/// What is live after one more record.
pub open spec fn live_step(v: Layer, r: Record) -> Layer {
    match r {
        Record::Put { key, seq, value } => v.insert(
            key,
            Version { seq, expires_at: 0, value: Some(value) },
        ),
        Record::PutTtl { key, seq, value, expires_at } => v.insert(
            key,
            Version { seq, expires_at, value: Some(value) },
        ),
        Record::Delete { key, .. } => v.remove(key),
        Record::DeleteRange { from, to, .. } => Map::new(
            |k: Seq<u8>| v.contains_key(k) && !in_range(k, from, to),
            |k: Seq<u8>| v[k],
        ),
    }
}

/// What is live after a sequence of records.
pub open spec fn live_after(v: Layer, rs: Seq<Record>) -> Layer
    decreases rs.len(),
{
    if rs.len() == 0 {
        v
    } else {
        live_step(live_after(v, rs.drop_last()), rs.last())
    }
}

/// A record acts on what is live and on nothing else.
pub proof fn lemma_step_live(m: Layer, base: Layer, r: Record)
    ensures
        live(base.union_prefer_right(apply_record(m, base, r))) == live_step(
            live(base.union_prefer_right(m)),
            r,
        ),
{
    assert(live(base.union_prefer_right(apply_record(m, base, r))) =~= live_step(
        live(base.union_prefer_right(m)),
        r,
    ));
}

/// Replaying a log on top of the tables gives what the records make of what was
/// live in the tables.
pub proof fn lemma_replay_live(base: Layer, rs: Seq<Record>)
    ensures
        live(base.union_prefer_right(replay(base, rs))) == live_after(live(base), rs),
    decreases rs.len(),
{
    if rs.len() == 0 {
        assert(base.union_prefer_right(replay(base, rs)) =~= base);
    } else {
        lemma_replay_live(base, rs.drop_last());
        lemma_step_live(replay(base, rs.drop_last()), base, rs.last());
    }
}

/// The memtable depends on the tables only by what is live in them.
pub proof fn lemma_replay_same(a: Layer, b: Layer, rs: Seq<Record>)
    requires
        live(a) == live(b),
    ensures
        replay(a, rs) == replay(b, rs),
    decreases rs.len(),
{
    if rs.len() > 0 {
        lemma_replay_same(a, b, rs.drop_last());
        lemma_live_below(a, b, replay(a, rs.drop_last()));
    }
}

/// One more record.
pub proof fn lemma_replay_push(base: Layer, rs: Seq<Record>, r: Record)
    ensures
        replay(base, rs.push(r)) == apply_record(replay(base, rs), base, r),
{
    assert(rs.push(r).drop_last() =~= rs);
}

/// Whether a record decides about a key.
pub open spec fn touches(r: Record, k: Seq<u8>) -> bool {
    match r {
        Record::Put { key, .. } => key == k,
        Record::PutTtl { key, .. } => key == k,
        Record::Delete { key, .. } => key == k,
        Record::DeleteRange { from, to, .. } => in_range(k, from, to),
    }
}

/// What a map says of a key.
pub open spec fn at_key(v: Layer, k: Seq<u8>) -> Option<Version> {
    if v.contains_key(k) {
        Some(v[k])
    } else {
        None
    }
}

proof fn lemma_last_word(v: Layer, w: Layer, rs: Seq<Record>, k: Seq<u8>)
    ensures
        (exists|i: int| 0 <= i < rs.len() && touches(#[trigger] rs[i], k)) ==> at_key(
            live_after(v, rs),
            k,
        ) == at_key(live_after(w, rs), k),
        (forall|i: int| 0 <= i < rs.len() ==> !touches(#[trigger] rs[i], k)) ==> at_key(
            live_after(v, rs),
            k,
        ) == at_key(v, k),
    decreases rs.len(),
{
    if rs.len() > 0 {
        let less = rs.drop_last();
        lemma_last_word(v, w, less, k);
        assert(rs.last() == rs[rs.len() - 1]);
        if !touches(rs.last(), k) {
            assert(at_key(live_after(v, rs), k) == at_key(live_after(v, less), k));
            assert(at_key(live_after(w, rs), k) == at_key(live_after(w, less), k));
            if exists|i: int| 0 <= i < rs.len() && touches(#[trigger] rs[i], k) {
                let i = choose|i: int| 0 <= i < rs.len() && touches(#[trigger] rs[i], k);
                assert(less[i] == rs[i]);
            }
            if forall|i: int| 0 <= i < rs.len() ==> !touches(#[trigger] rs[i], k) {
                assert forall|i: int| 0 <= i < less.len() implies !touches(
                    #[trigger] less[i],
                    k,
                ) by {
                    assert(less[i] == rs[i]);
                }
            }
        }
    }
}

/// Replaying a log a second time changes nothing: the last record that decides
/// about a key has the last word either way. So a crash between recording a
/// flushed table and emptying the log does no harm.
pub proof fn law_replay_twice(v: Layer, rs: Seq<Record>)
    ensures
        live_after(live_after(v, rs), rs) == live_after(v, rs),
{
    let once = live_after(v, rs);
    let twice = live_after(once, rs);
    assert forall|k: Seq<u8>| #[trigger] twice.contains_key(k) == once.contains_key(k) && (
    twice.contains_key(k) ==> twice[k] == once[k]) by {
        lemma_last_word(once, v, rs, k);
        lemma_last_word(v, v, rs, k);
        assert(at_key(twice, k) == at_key(once, k)) by {
            if exists|i: int| 0 <= i < rs.len() && touches(#[trigger] rs[i], k) {
            } else {
                assert(forall|i: int| 0 <= i < rs.len() ==> !touches(#[trigger] rs[i], k));
            }
        }
    }
    assert(twice =~= once);
}

} // verus!
