//! What scans, cursors and snapshots show, in terms of what single reads show.

use crate::bytes::{law_order_by_first_difference, law_prefix_and_rest, lemma_lex_order,
    lemma_lex_total, lex_lt};
use crate::clock::expiry;
use crate::engine::LsmEngine;
use crate::engine::read::{between, lists_map, seen};
use crate::engine::write::wrote;
use crate::iter::Cursor;
use crate::layers::{in_range, visible_values};
use crate::snapshot::{with_prefix, Snapshot};
use crate::sorted_map::{assoc, holds_key, lemma_assoc_contains, lemma_assoc_determines,
    lemma_assoc_index, pairs};
use crate::wal::Record;
use vstd::prelude::*;

verus! {

/// Keys and values, as a scan returns them.
pub type PairList = Vec<(Vec<u8>, Vec<u8>)>;

/// A list of the pairs of a map has them in ascending order, only them, and all of them.
pub proof fn law_list_of_map(v: Seq<(Vec<u8>, Vec<u8>)>, m: Map<Seq<u8>, Seq<u8>>, key: Seq<u8>)
    requires
        lists_map(v, m),
    ensures
        forall|i: int, j: int|
            0 <= i < j < v.len() ==> lex_lt((#[trigger] v[i]).0@, (#[trigger] v[j]).0@),
        forall|i: int|
            0 <= i < v.len() ==> m.contains_key((#[trigger] v[i]).0@) && m[v[i].0@] == v[i].1@,
        m.contains_key(key) ==> exists|i: int|
            0 <= i < v.len() && (#[trigger] v[i]).0@ == key && v[i].1@ == m[key],
{
    let p = pairs(v);
    assert forall|i: int, j: int| 0 <= i < j < v.len() implies lex_lt(
        (#[trigger] v[i]).0@,
        (#[trigger] v[j]).0@,
    ) by {
        assert(p[i].0 == v[i].0@ && p[j].0 == v[j].0@);
    }
    assert forall|i: int| 0 <= i < v.len() implies m.contains_key((#[trigger] v[i]).0@)
        && m[v[i].0@] == v[i].1@ by {
        lemma_assoc_index(p, i);
        assert(p[i] == (v[i].0@, v[i].1@));
    }
    if m.contains_key(key) {
        lemma_assoc_contains(p, key);
        let i = choose|i: int| holds_key(p, key, i);
        assert(holds_key(p, key, i));
        assert(v[i].0@ == key);
        assert(m[v[i].0@] == v[i].1@);
    }
}

impl LsmEngine {
    /// A scan of a range lists the keys that are the lower bound or come after it and
    /// that come before the upper bound, in ascending order, those that a read finds
    /// and no others, each with what a read finds.
    pub proof fn law_scan_lists_the_range(
        &self,
        cf: &str,
        from: &[u8],
        to: &[u8],
        now: u64,
        list: PairList,
        key: &[u8],
        got: Option<Vec<u8>>,
    )
        requires
            call_ensures(LsmEngine::scan_cf_at, (self, cf, from, to, now), Ok(list)),
            call_ensures(LsmEngine::get_cf_at, (self, cf, key, now), Ok(got)),
        ensures
            forall|i: int, j: int|
                0 <= i < j < list@.len() ==> lex_lt(
                    (#[trigger] list@[i]).0@,
                    (#[trigger] list@[j]).0@,
                ),
            (from@ == key@ || lex_lt(from@, key@)) && lex_lt(key@, to@) && got is Some ==> exists|
                i: int,
            |
                0 <= i < list@.len() && (#[trigger] list@[i]).0@ == key@ && list@[i].1@
                    == got->0@,
            forall|i: int|
                0 <= i < list@.len() && (#[trigger] list@[i]).0@ == key@ ==> (from@ == key@
                    || lex_lt(from@, key@)) && lex_lt(key@, to@) && got is Some && list@[i].1@
                    == got->0@,
    {
        let c = self.contents(cf@);
        let m = between(visible_values(c, now), from@, to@);
        law_list_of_map(list@, m, key@);
        lemma_lex_order();
        lemma_lex_total(from@, key@);
    }

    /// A prefix scan lists the keys that are the prefix and some bytes behind it, in
    /// ascending order, those that a read finds and no others, each with what a read
    /// finds.
    pub proof fn law_prefix_scan_lists_the_prefix(
        &self,
        cf: &str,
        prefix: &[u8],
        now: u64,
        list: PairList,
        key: &[u8],
        got: Option<Vec<u8>>,
    )
        requires
            call_ensures(LsmEngine::scan_prefix_cf_at, (self, cf, prefix, now), Ok(list)),
            call_ensures(LsmEngine::get_cf_at, (self, cf, key, now), Ok(got)),
        ensures
            forall|i: int, j: int|
                0 <= i < j < list@.len() ==> lex_lt(
                    (#[trigger] list@[i]).0@,
                    (#[trigger] list@[j]).0@,
                ),
            forall|rest: Seq<u8>|
                #![trigger prefix@ + rest]
                key@ == prefix@ + rest && got is Some ==> exists|i: int|
                    0 <= i < list@.len() && (#[trigger] list@[i]).0@ == key@ && list@[i].1@
                        == got->0@,
            forall|i: int|
                0 <= i < list@.len() && (#[trigger] list@[i]).0@ == key@ ==> prefix@.len()
                    <= key@.len() && key@ == prefix@ + key@.skip(prefix@.len() as int) && got is Some
                    && list@[i].1@ == got->0@,
    {
        let c = self.contents(cf@);
        let m = with_prefix(visible_values(c, now), prefix@);
        law_list_of_map(list@, m, key@);
        assert forall|rest: Seq<u8>|
            #![trigger prefix@ + rest]
            key@ == prefix@ + rest && got is Some implies exists|i: int|
            0 <= i < list@.len() && (#[trigger] list@[i]).0@ == key@ && list@[i].1@ == got->0@ by {
            law_prefix_and_rest(key@, prefix@, rest);
            assert(m.contains_key(key@));
        }
        law_prefix_and_rest(key@, prefix@, Seq::empty());
    }
}


impl LsmEngine {
    /// A scan of two adjacent ranges is the scan of the first and, behind it, that of the
    /// second.
    pub proof fn law_adjacent_scans_join(
        &self,
        cf: &str,
        a: &[u8],
        b: &[u8],
        c: &[u8],
        now: u64,
        first: PairList,
        second: PairList,
        both: PairList,
    )
        requires
            a@ == b@ || lex_lt(a@, b@),
            b@ == c@ || lex_lt(b@, c@),
            call_ensures(LsmEngine::scan_cf_at, (self, cf, a, b, now), Ok(first)),
            call_ensures(LsmEngine::scan_cf_at, (self, cf, b, c, now), Ok(second)),
            call_ensures(LsmEngine::scan_cf_at, (self, cf, a, c, now), Ok(both)),
        ensures
            both@.len() == first@.len() + second@.len(),
            forall|i: int|
                0 <= i < first@.len() ==> (#[trigger] both@[i]).0@ == first@[i].0@ && both@[i].1@
                    == first@[i].1@,
            forall|i: int|
                0 <= i < second@.len() ==> both@[first@.len() + i].0@ == (#[trigger] second@[i]).0@
                    && both@[first@.len() + i].1@ == second@[i].1@,
    {
        lemma_lex_order();
        let v = visible_values(self.contents(cf@), now);
        let x = pairs(first@);
        let y = pairs(second@);
        let z = pairs(both@);
        let joined = x + y;
        let e = Seq::<u8>::empty();
        law_list_of_map(first@, between(v, a@, b@), e);
        law_list_of_map(second@, between(v, b@, c@), e);
        assert forall|i: int, j: int| 0 <= i < j < joined.len() implies lex_lt(
            #[trigger] joined[i].0,
            #[trigger] joined[j].0,
        ) by {
            if i < x.len() && j >= x.len() {
                let k = first@[i].0@;
                let l = second@[j - x.len()].0@;
                assert(between(v, a@, b@).contains_key(k));
                assert(between(v, b@, c@).contains_key(l));
                lemma_lex_total(b@, l);
            } else if i < x.len() {
                assert(joined[i] == x[i] && joined[j] == x[j]);
            } else {
                assert(joined[i] == y[i - x.len()] && joined[j] == y[j - x.len()]);
            }
        }
        lemma_assoc_join(x, y);
        let all = assoc(x).union_prefer_right(assoc(y));
        assert(all =~= between(v, a@, c@)) by {
            assert forall|k: Seq<u8>| in_range(k, a@, c@) == (in_range(k, a@, b@) || in_range(
                k,
                b@,
                c@,
            )) by {
                lemma_lex_total(k, a@);
                lemma_lex_total(k, b@);
                lemma_lex_total(k, c@);
            }
        }
        lemma_assoc_determines(z, joined);
        assert forall|i: int| 0 <= i < first@.len() implies (#[trigger] both@[i]).0@ == first@[i].0@
            && both@[i].1@ == first@[i].1@ by {
            assert(z[i] == x[i]);
        }
        assert forall|i: int| 0 <= i < second@.len() implies both@[first@.len() + i].0@ == (
        #[trigger] second@[i]).0@ && both@[first@.len() + i].1@ == second@[i].1@ by {
            assert(z[x.len() + i] == y[i]);
        }
    }

    /// A scan from the empty bound leaves out no key below the upper bound that a read
    /// finds.
    pub proof fn law_scan_from_the_start(
        &self,
        cf: &str,
        from: &[u8],
        to: &[u8],
        now: u64,
        list: PairList,
        key: &[u8],
        got: Option<Vec<u8>>,
    )
        requires
            from@.len() == 0,
            lex_lt(key@, to@),
            got is Some,
            call_ensures(LsmEngine::scan_cf_at, (self, cf, from, to, now), Ok(list)),
            call_ensures(LsmEngine::get_cf_at, (self, cf, key, now), Ok(got)),
        ensures
            exists|i: int|
                0 <= i < list@.len() && (#[trigger] list@[i]).0@ == key@ && list@[i].1@
                    == got->0@,
    {
        self.law_scan_lists_the_range(cf, from, to, now, list, key, got);
        if key@.len() == 0 {
            assert(from@ =~= key@);
        } else {
            law_order_by_first_difference(from@, key@, 0);
        }
    }

    /// A snapshot and a cursor show of every key what a read finds.
    pub proof fn law_snapshot_and_cursor_agree_with_get(
        &self,
        cf: &str,
        now: u64,
        s: Snapshot,
        c: Cursor,
        key: &[u8],
        got: Option<Vec<u8>>,
        from_snapshot: Option<&[u8]>,
    )
        requires
            call_ensures(LsmEngine::snapshot_cf_at, (self, cf, now), Ok(s)),
            call_ensures(LsmEngine::iter_cf_at, (self, cf, now), Ok(c)),
            call_ensures(LsmEngine::get_cf_at, (self, cf, key, now), Ok(got)),
            call_ensures(Snapshot::get, (&s, key), from_snapshot),
        ensures
            from_snapshot is Some == got is Some,
            got is Some ==> from_snapshot->0@ == got->0@,
            c@.contains_key(key@) == got is Some,
            got is Some ==> c@[key@] == got->0@,
    {
    }

    /// A prefix scan of a snapshot lists the keys of the snapshot that are the prefix and
    /// some bytes behind it, in ascending order, each with its value, and no others.
    pub proof fn law_snapshot_prefix_scan(
        s: &Snapshot,
        prefix: &[u8],
        list: PairList,
        key: &[u8],
        got: Option<&[u8]>,
    )
        requires
            call_ensures(Snapshot::scan_prefix, (s, prefix), list),
            call_ensures(Snapshot::get, (s, key), got),
        ensures
            forall|i: int, j: int|
                0 <= i < j < list@.len() ==> lex_lt(
                    (#[trigger] list@[i]).0@,
                    (#[trigger] list@[j]).0@,
                ),
            forall|rest: Seq<u8>|
                #![trigger prefix@ + rest]
                key@ == prefix@ + rest && got is Some ==> exists|i: int|
                    0 <= i < list@.len() && (#[trigger] list@[i]).0@ == key@ && list@[i].1@
                        == got->0@,
            forall|i: int|
                0 <= i < list@.len() && (#[trigger] list@[i]).0@ == key@ ==> prefix@.len()
                    <= key@.len() && key@ == prefix@ + key@.skip(prefix@.len() as int) && got is Some
                    && list@[i].1@ == got->0@,
    {
        let m = with_prefix(s@, prefix@);
        law_list_of_map(list@, m, key@);
        assert forall|rest: Seq<u8>|
            #![trigger prefix@ + rest]
            key@ == prefix@ + rest && got is Some implies exists|i: int|
            0 <= i < list@.len() && (#[trigger] list@[i]).0@ == key@ && list@[i].1@ == got->0@ by {
            law_prefix_and_rest(key@, prefix@, rest);
            assert(m.contains_key(key@));
        }
        law_prefix_and_rest(key@, prefix@, Seq::empty());
    }
}

/// The map of two lists, one behind the other.
proof fn lemma_assoc_join<A>(x: Seq<(Seq<u8>, A)>, y: Seq<(Seq<u8>, A)>)
    ensures
        assoc(x + y) == assoc(x).union_prefer_right(assoc(y)),
    decreases y.len(),
{
    if y.len() == 0 {
        assert(x + y =~= x);
        assert(assoc(x).union_prefer_right(assoc(y)) =~= assoc(x));
    } else {
        lemma_assoc_join(x, y.drop_last());
        assert((x + y).drop_last() =~= x + y.drop_last());
        assert(assoc(x).union_prefer_right(assoc(y)) =~= assoc(x).union_prefer_right(
            assoc(y.drop_last()),
        ).insert(y.last().0, y.last().1));
    }
}

/// A deletion of a range removes the keys that are its lower bound or come after it and
/// that come before its upper bound, and leaves all others as they were.
pub proof fn law_deleted_range_is_gone(
    before: &LsmEngine,
    after: &LsmEngine,
    cf: Seq<char>,
    from: Seq<u8>,
    to: Seq<u8>,
    seq: u64,
    key: Seq<u8>,
    now: u64,
)
    requires
        wrote(before, after, cf, Record::DeleteRange { from, to, seq }),
    ensures
        (from == key || lex_lt(from, key)) && lex_lt(key, to) ==> seen(
            after.contents(cf),
            key,
            now,
        ) is None,
        lex_lt(key, from) || key == to || lex_lt(to, key) ==> seen(after.contents(cf), key, now)
            == seen(before.contents(cf), key, now),
{
    lemma_lex_order();
    lemma_lex_total(from, key);
}

/// A value that was put with a time to live when the clock showed `written` is read
/// until that time has passed, and not afterwards. One with the time to live 0 is always
/// read.
pub proof fn law_time_to_live(
    before: &LsmEngine,
    after: &LsmEngine,
    cf: Seq<char>,
    key: Seq<u8>,
    seq: u64,
    value: Seq<u8>,
    written: u64,
    ttl_ms: u64,
    now: u64,
)
    requires
        wrote(
            before,
            after,
            cf,
            Record::PutTtl { key, seq, value, expires_at: expiry(written, ttl_ms) },
        ),
    ensures
        ttl_ms == 0 ==> seen(after.contents(cf), key, now) == Some(value),
        now < written + ttl_ms && now < u64::MAX ==> seen(after.contents(cf), key, now) == Some(value),
        ttl_ms > 0 && now >= written + ttl_ms ==> seen(after.contents(cf), key, now) is None,
        forall|k: Seq<u8>|
            k != key ==> #[trigger] seen(after.contents(cf), k, now) == seen(
                before.contents(cf),
                k,
                now,
            ),
{
}

} // verus!
