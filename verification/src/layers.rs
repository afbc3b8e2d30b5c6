//! Layers of key-value maps, of which newer ones hide older ones.

use crate::bytes::{lex_lt, Model};
use crate::memtable::{MemEntry, Version};
use vstd::prelude::*;

verus! {

/// A map from keys to what was last written to them.
pub type Layer = Map<Seq<u8>, Version>;

/// What a reader sees through a stack of layers, the oldest first.
pub open spec fn stack(layers: Seq<Layer>) -> Layer
    decreases layers.len(),
{
    if layers.len() == 0 {
        Map::empty()
    } else {
        stack(layers.drop_last()).union_prefer_right(layers.last())
    }
}

/// A stack on top of another.
pub proof fn lemma_stack_concat(a: Seq<Layer>, b: Seq<Layer>)
    ensures
        stack(a + b) == stack(a).union_prefer_right(stack(b)),
    decreases b.len(),
{
    if b.len() == 0 {
        assert(a + b =~= a);
        assert(stack(a).union_prefer_right(stack(b)) =~= stack(a));
    } else {
        lemma_stack_concat(a, b.drop_last());
        assert((a + b).drop_last() =~= a + b.drop_last());
        assert(stack(a).union_prefer_right(stack(b)) =~= stack(a).union_prefer_right(
            stack(b.drop_last()),
        ).union_prefer_right(b.last()));
    }
}

/// Hiding is associative.
pub proof fn lemma_hide_assoc(a: Layer, b: Layer, c: Layer)
    ensures
        a.union_prefer_right(b).union_prefer_right(c) == a.union_prefer_right(
            b.union_prefer_right(c),
        ),
{
    assert(a.union_prefer_right(b).union_prefer_right(c) =~= a.union_prefer_right(
        b.union_prefer_right(c),
    ));
}

/// The part of a layer that is not tombstones.
pub open spec fn live(m: Layer) -> Layer {
    Map::new(|k: Seq<u8>| m.contains_key(k) && m[k].value is Some, |k: Seq<u8>| m[k])
}

/// What shows through depends on a lower layer only by what is live in it.
pub proof fn lemma_live_below(a: Layer, b: Layer, top: Layer)
    requires
        live(a) == live(b),
    ensures
        live(a.union_prefer_right(top)) == live(b.union_prefer_right(top)),
{
    let x = a.union_prefer_right(top);
    let y = b.union_prefer_right(top);
    assert forall|k: Seq<u8>| #[trigger] live(x).contains_key(k) == live(y).contains_key(k) && (
    live(x).contains_key(k) ==> live(x)[k] == live(y)[k]) by {
        assert(live(a).contains_key(k) == live(b).contains_key(k));
        if live(a).contains_key(k) {
            assert(live(a)[k] == live(b)[k]);
        }
    }
    assert(live(x) =~= live(y));
}

/// A layer with fewer entries under another shows no other entries.
pub proof fn lemma_submap_below(a: Layer, b: Layer, top: Layer)
    requires
        b.submap_of(a),
    ensures
        b.union_prefer_right(top).submap_of(a.union_prefer_right(top)),
{
    let x = a.union_prefer_right(top);
    let y = b.union_prefer_right(top);
    assert forall|k: Seq<u8>| #[trigger] y.dom().contains(k) implies x.dom().contains(k) && x[k]
        == y[k] by {
        if !top.contains_key(k) {
            assert(b.dom().contains(k));
        }
    }
}

/// Taking the live part twice changes nothing.
pub proof fn lemma_live_idempotent(m: Layer)
    ensures
        live(live(m)) == live(m),
{
    assert(live(live(m)) =~= live(m));
}

/// A value of which some are tombstones.
pub trait Tombstone: Model {
    spec fn is_dead(m: Self::M) -> bool;

    /// Whether this is a tombstone.
    fn is_tombstone(&self) -> (r: bool)
        ensures
            r == Self::is_dead(self.model()),
    ;
}

impl Tombstone for Option<Vec<u8>> {
    open spec fn is_dead(m: Option<Seq<u8>>) -> bool {
        m is None
    }

    fn is_tombstone(&self) -> (r: bool) {
        self.is_none()
    }
}

impl Tombstone for MemEntry {
    open spec fn is_dead(m: Version) -> bool {
        m.value is None
    }

    fn is_tombstone(&self) -> (r: bool) {
        self.value.is_none()
    }
}

/// A map without its tombstones.
pub open spec fn without_dead<V: Tombstone>(m: Map<Seq<u8>, V::M>) -> Map<Seq<u8>, V::M> {
    Map::new(|k: Seq<u8>| m.contains_key(k) && !V::is_dead(m[k]), |k: Seq<u8>| m[k])
}

/// The tombstones of a map.
pub open spec fn only_dead<V: Tombstone>(m: Map<Seq<u8>, V::M>) -> Map<Seq<u8>, V::M> {
    Map::new(|k: Seq<u8>| m.contains_key(k) && V::is_dead(m[k]), |k: Seq<u8>| m[k])
}

/// The part of a layer that was written no later than `max_seq`.
pub open spec fn upto(m: Layer, max_seq: u64) -> Layer {
    Map::new(|k: Seq<u8>| m.contains_key(k) && m[k].seq <= max_seq, |k: Seq<u8>| m[k])
}

/// What a reader whose clock shows `now` sees of each key, or that it is gone.
pub open spec fn shown(m: Layer, now: u64) -> Map<Seq<u8>, Option<Seq<u8>>> {
    Map::new(|k: Seq<u8>| m.contains_key(k), |k: Seq<u8>| m[k].at(now))
}

/// The keys and values that a reader sees whose clock shows `now`.
pub open spec fn visible_values(m: Layer, now: u64) -> Map<Seq<u8>, Seq<u8>> {
    Map::new(|k: Seq<u8>| m.contains_key(k) && m[k].visible(now), |k: Seq<u8>| m[k].value->0)
}

/// Hiding and showing can be done in either order.
pub proof fn lemma_shown_union(a: Layer, b: Layer, now: u64)
    ensures
        shown(a.union_prefer_right(b), now) == shown(a, now).union_prefer_right(shown(b, now)),
{
    assert(shown(a.union_prefer_right(b), now) =~= shown(a, now).union_prefer_right(shown(b, now)));
}

/// Nothing is left out of a layer whose writes are all early enough.
pub proof fn lemma_upto_all(m: Layer, max_seq: u64)
    requires
        forall|k: Seq<u8>| m.contains_key(k) ==> (#[trigger] m[k]).seq <= max_seq,
    ensures
        upto(m, max_seq) == m,
{
    assert(upto(m, max_seq) =~= m);
}

/// What is seen depends only on what is live.
pub proof fn lemma_visible_live(m: Layer, now: u64)
    ensures
        visible_values(live(m), now) == visible_values(m, now),
{
    assert(visible_values(live(m), now) =~= visible_values(m, now));
}

/// The keys from `from` up to, not including, `to`.
pub open spec fn in_range(k: Seq<u8>, from: Seq<u8>, to: Seq<u8>) -> bool {
    !lex_lt(k, from) && lex_lt(k, to)
}

} // verus!
