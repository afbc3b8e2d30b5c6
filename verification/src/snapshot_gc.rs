//! Which snapshots are live, and which old versions no reader needs any more.

use crate::bytes::{bytes_eq, bytes_lt, copy_bytes, copy_value, lemma_lex_irreflexive,
    lemma_lex_order, lemma_lex_total, lex_lt, Model};
use vstd::multiset::Multiset;
use vstd::prelude::*;
use vstd::seq_lib::group_to_multiset_ensures;

verus! {

// ---- live snapshots ------------------------------------------------------------

/// The sequence numbers of the live snapshots.
pub struct SnapshotRegistry {
    live: Vec<u64>,
}

/// What is held for a live snapshot, to be given back when it is dropped.
pub struct SnapshotGuard {
    seq: u64,
}

impl SnapshotGuard {
    /// The sequence number of the snapshot.
    pub closed spec fn pinned(&self) -> u64 {
        self.seq
    }

    /// The sequence number of the snapshot.
    pub fn seq(&self) -> (r: u64)
        ensures
            r == self.pinned(),
    {
        self.seq
    }
}

impl View for SnapshotRegistry {
    type V = Multiset<u64>;

    closed spec fn view(&self) -> Multiset<u64> {
        self.live@.to_multiset()
    }
}

/// `x` is the smallest of the numbers.
pub open spec fn is_least(m: Multiset<u64>, x: u64) -> bool {
    m.count(x) > 0 && forall|y: u64| #[trigger] m.count(y) > 0 ==> x <= y
}

impl SnapshotRegistry {
    /// No snapshot is live.
    pub fn new() -> (r: SnapshotRegistry)
        ensures
            r@ == Multiset::<u64>::empty(),
    {
        let r: SnapshotRegistry = SnapshotRegistry { live: Vec::new() };
        proof {
            assert(r.live@ =~= Seq::<u64>::empty());
            vstd::seq_lib::to_multiset_len(r.live@);
            assert(r@ =~= Multiset::<u64>::empty());
        }
        r
    }

    /// Add a snapshot that is pinned at `seq`.
    pub fn register(&mut self, seq: u64) -> (guard: SnapshotGuard)
        ensures
            guard.pinned() == seq,
            final(self)@ == old(self)@.insert(seq),
    {
        broadcast use group_to_multiset_ensures;
        self.live.push(seq);
        SnapshotGuard { seq }
    }

    /// Take back what was held for a snapshot.
    pub fn release(&mut self, guard: SnapshotGuard)
        ensures
            final(self)@ == old(self)@.remove(guard.pinned()),
    {
        broadcast use group_to_multiset_ensures;
        let mut i: usize = 0;
        while i < self.live.len()
            invariant
                i <= self.live@.len(),
                self.live == old(self).live,
                forall|j: int| 0 <= j < i ==> (#[trigger] self.live@[j]) != guard.seq,
            decreases self.live@.len() - i,
        {
            if self.live[i] == guard.seq {
                let ghost s = self.live@;
                let _ = self.live.remove(i);
                proof {
                    assert(self.live@ =~= s.remove(i as int));
                    vstd::seq_lib::to_multiset_remove(s, i as int);
                }
                return ;
            }
            i = i + 1;
        }
        proof {
            assert(!self.live@.contains(guard.seq));
            assert(self@.count(guard.seq) == 0);
            assert(self@.remove(guard.seq) =~= self@);
        }
    }

    /// The largest number below those that live snapshots are pinned at; `u64::MAX`
    /// if there are none.
    pub fn safe_horizon(&self) -> (r: u64)
        ensures
            self@.len() == 0 ==> r == u64::MAX,
            self@.len() > 0 ==> exists|x: u64|
                #[trigger] is_least(self@, x) && r == (if x == 0 {
                    0
                } else {
                    (x - 1) as u64
                }),
    {
        broadcast use group_to_multiset_ensures;
        if self.live.len() == 0 {
            return u64::MAX;
        }
        let mut least: u64 = self.live[0];
        let mut i: usize = 1;
        while i < self.live.len()
            invariant
                1 <= i <= self.live@.len(),
                self.live@.contains(least),
                forall|j: int| 0 <= j < i ==> least <= (#[trigger] self.live@[j]),
            decreases self.live@.len() - i,
        {
            if self.live[i] < least {
                least = self.live[i];
                assert(self.live@[i as int] == least);
            }
            i = i + 1;
        }
        proof {
            assert forall|y: u64| #[trigger] self@.count(y) > 0 implies least <= y by {
                assert(self.live@.contains(y));
            }
            assert(is_least(self@, least));
        }
        least.saturating_sub(1)
    }

    /// How many snapshots are live.
    pub fn active_count(&self) -> (r: usize)
        ensures
            r == self@.len(),
    {
        broadcast use group_to_multiset_ensures;
        self.live.len()
    }
}

impl Default for SnapshotRegistry {
    fn default() -> (r: SnapshotRegistry)
        ensures
            r@ == Multiset::<u64>::empty(),
    {
        SnapshotRegistry::new()
    }
}

/// A snapshot that comes and goes leaves the others as they were.
pub proof fn law_release_undoes_register(m: Multiset<u64>, seq: u64)
    ensures
        m.insert(seq).remove(seq) == m,
{
    assert(m.insert(seq).remove(seq) =~= m);
}

// ---- old versions --------------------------------------------------------------

/// A version of a key: its sequence number, and its value or that it is a tombstone.
pub type Versioned = (Seq<u8>, u64, Option<Seq<u8>>);

/// Versions as mathematical values.
pub open spec fn version_views(v: Seq<(Vec<u8>, u64, Option<Vec<u8>>)>) -> Seq<Versioned> {
    v.map_values(|e: (Vec<u8>, u64, Option<Vec<u8>>)| (e.0@, e.1, e.2.model()))
}

/// The newest version of a key; of several with the same number, the first.
pub open spec fn newest(es: Seq<Versioned>, key: Seq<u8>) -> Option<Versioned>
    decreases es.len(),
{
    if es.len() == 0 {
        None
    } else {
        let before = newest(es.drop_last(), key);
        let e = es.last();
        if e.0 != key {
            before
        } else {
            match before {
                Some(b) => if e.1 > b.1 {
                    Some(e)
                } else {
                    before
                },
                None => Some(e),
            }
        }
    }
}

/// Whether a version is kept: the newest one of its key always, but for a tombstone
/// at the deepest level that is not above the horizon, with which all versions of
/// the key go; and an older one if it is above the horizon.
pub open spec fn is_kept(es: Seq<Versioned>, horizon: u64, deepest: bool, e: Versioned) -> bool {
    match newest(es, e.0) {
        Some(n) => {
            &&& !(deepest && n.2 is None && n.1 <= horizon)
            &&& e.1 == n.1 || e.1 > horizon
        },
        None => false,
    }
}

/// `a` stands before `b`: by key, and the newer version of a key first.
pub open spec fn stands_before(a: Versioned, b: Versioned) -> bool {
    lex_lt(a.0, b.0) || (a.0 == b.0 && a.1 > b.1)
}

/// The place of `e` in an ordered list: behind all that it does not stand before.
pub open spec fn place_in(s: Seq<Versioned>, e: Versioned) -> int
    decreases s.len(),
{
    if s.len() == 0 || !stands_before(e, s.last()) {
        s.len() as int
    } else {
        place_in(s.drop_last(), e)
    }
}

/// The versions that are kept, in order; equal ones as they came.
pub open spec fn kept_versions(
    all: Seq<Versioned>,
    es: Seq<Versioned>,
    horizon: u64,
    deepest: bool,
) -> Seq<Versioned>
    decreases es.len(),
{
    if es.len() == 0 {
        Seq::empty()
    } else {
        let before = kept_versions(all, es.drop_last(), horizon, deepest);
        if is_kept(all, horizon, deepest, es.last()) {
            before.insert(place_in(before, es.last()), es.last())
        } else {
            before
        }
    }
}

proof fn lemma_place(s: Seq<Versioned>, e: Versioned)
    ensures
        0 <= place_in(s, e) <= s.len(),
    decreases s.len(),
{
    if s.len() > 0 && stands_before(e, s.last()) {
        lemma_place(s.drop_last(), e);
    }
}

/// The number and kind of the newest version of a key.
fn find_newest(entries: &Vec<(Vec<u8>, u64, Option<Vec<u8>>)>, key: &Vec<u8>) -> (r: Option<
    (u64, bool),
>)
    ensures
        match newest(version_views(entries@), key@) {
            Some(n) => r == Some((n.1, n.2 is None)),
            None => r is None,
        },
{
    let ghost es = version_views(entries@);
    let mut r: Option<(u64, bool)> = None;
    let mut i: usize = 0;
    assert(es.take(0) =~= Seq::<Versioned>::empty());
    while i < entries.len()
        invariant
            i <= entries@.len(),
            es == version_views(entries@),
            match newest(es.take(i as int), key@) {
                Some(n) => r == Some((n.1, n.2 is None)),
                None => r is None,
            },
        decreases entries@.len() - i,
    {
        proof {
            let t = es.take(i + 1);
            assert(t.drop_last() =~= es.take(i as int));
            assert(t.last() == es[i as int]);
        }
        if bytes_eq(entries[i].0.as_slice(), key.as_slice()) {
            let seq: u64 = entries[i].1;
            let dead: bool = entries[i].2.is_none();
            match r {
                Some((best, _)) => {
                    if seq > best {
                        r = Some((seq, dead));
                    }
                },
                None => {
                    r = Some((seq, dead));
                },
            }
        }
        i = i + 1;
    }
    assert(es.take(i as int) =~= es);
    r
}

/// Put an entry in its place.
fn insert_version(out: &mut Vec<(Vec<u8>, u64, Option<Vec<u8>>)>, e: (Vec<u8>, u64, Option<Vec<u8>>))
    ensures
        version_views(final(out)@) == version_views(old(out)@).insert(
            place_in(version_views(old(out)@), (e.0@, e.1, e.2.model())),
            (e.0@, e.1, e.2.model()),
        ),
{
    let ghost s = version_views(out@);
    let ghost x = (e.0@, e.1, e.2.model());
    let mut i: usize = out.len();
    assert(s.take(i as int) =~= s);
    while i > 0 && (bytes_lt(e.0.as_slice(), out[i - 1].0.as_slice()) || (bytes_eq(
        e.0.as_slice(),
        out[i - 1].0.as_slice(),
    ) && e.1 > out[i - 1].1))
        invariant
            i <= out@.len(),
            out@ == old(out)@,
            s == version_views(out@),
            x == (e.0@, e.1, e.2.model()),
            place_in(s, x) == place_in(s.take(i as int), x),
        decreases i,
    {
        proof {
            let t = s.take(i as int);
            assert(t.last() == s[i - 1]);
            assert(t.drop_last() =~= s.take(i - 1));
        }
        i = i - 1;
    }
    proof {
        if i > 0 {
            let t = s.take(i as int);
            assert(t.last() == s[i - 1]);
        }
        assert(place_in(s, x) == i);
    }
    out.insert(i, e);
    assert(version_views(out@) =~= s.insert(i as int, x));
}

/// Drop the versions of a merged list that no reader needs.
pub fn filter_versions(
    entries: Vec<(Vec<u8>, u64, Option<Vec<u8>>)>,
    safe_horizon: u64,
    at_deepest_level: bool,
) -> (r: Vec<(Vec<u8>, u64, Option<Vec<u8>>)>)
    ensures
        version_views(r@) == kept_versions(
            version_views(entries@),
            version_views(entries@),
            safe_horizon,
            at_deepest_level,
        ),
{
    let ghost es = version_views(entries@);
    let mut out: Vec<(Vec<u8>, u64, Option<Vec<u8>>)> = Vec::new();
    let mut i: usize = 0;
    assert(es.take(0) =~= Seq::<Versioned>::empty());
    assert(version_views(out@) =~= Seq::<Versioned>::empty());
    while i < entries.len()
        invariant
            i <= entries@.len(),
            es == version_views(entries@),
            version_views(out@) == kept_versions(
                es,
                es.take(i as int),
                safe_horizon,
                at_deepest_level,
            ),
        decreases entries@.len() - i,
    {
        let ghost e = es[i as int];
        proof {
            let t = es.take(i + 1);
            assert(t.drop_last() =~= es.take(i as int));
            assert(t.last() == e);
        }
        let keep: bool = match find_newest(&entries, &entries[i].0) {
            Some((seq, dead)) => !(at_deepest_level && dead && seq <= safe_horizon) && (
            entries[i].1 == seq || entries[i].1 > safe_horizon),
            None => false,
        };
        assert(keep == is_kept(es, safe_horizon, at_deepest_level, e));
        if keep {
            let copy: (Vec<u8>, u64, Option<Vec<u8>>) = (
                copy_bytes(entries[i].0.as_slice()),
                entries[i].1,
                copy_value(&entries[i].2),
            );
            insert_version(&mut out, copy);
        }
        i = i + 1;
    }
    assert(es.take(i as int) =~= es);
    out
}

/// The list is in order.
pub open spec fn in_order(s: Seq<Versioned>) -> bool {
    forall|i: int, j: int|
        0 <= i < j < s.len() ==> !stands_before(#[trigger] s[j], #[trigger] s[i])
}

proof fn lemma_stands_before()
    ensures
        forall|a: Versioned, b: Versioned, c: Versioned|
            #[trigger] stands_before(a, b) && !#[trigger] stands_before(c, b) ==> stands_before(
                a,
                c,
            ),
        forall|a: Versioned, b: Versioned|
            #[trigger] stands_before(a, b) ==> !stands_before(b, a),
{
    lemma_lex_order();
    assert forall|a: Versioned, b: Versioned, c: Versioned|
        #[trigger] stands_before(a, b) && !#[trigger] stands_before(c, b) implies stands_before(
        a,
        c,
    ) by {
        lemma_lex_total(c.0, b.0);
        lemma_lex_total(a.0, c.0);
    }
}

proof fn lemma_place_splits(s: Seq<Versioned>, e: Versioned)
    requires
        in_order(s),
    ensures
        ({
            let p = place_in(s, e);
            &&& 0 <= p <= s.len()
            &&& forall|i: int| 0 <= i < p ==> !stands_before(e, #[trigger] s[i])
            &&& forall|i: int| p <= i < s.len() ==> stands_before(e, #[trigger] s[i])
        }),
    decreases s.len(),
{
    lemma_stands_before();
    if s.len() > 0 {
        let last = s[s.len() - 1];
        if stands_before(e, last) {
            let less = s.drop_last();
            assert forall|i: int, j: int| 0 <= i < j < less.len() implies !stands_before(
                #[trigger] less[j],
                #[trigger] less[i],
            ) by {
                assert(less[i] == s[i] && less[j] == s[j]);
            }
            lemma_place_splits(less, e);
            let p = place_in(s, e);
            assert forall|i: int| 0 <= i < p implies !stands_before(e, #[trigger] s[i]) by {
                assert(less[i] == s[i]);
            }
            assert forall|i: int| p <= i < s.len() implies stands_before(e, #[trigger] s[i]) by {
                if i < less.len() {
                    assert(less[i] == s[i]);
                }
            }
        } else {
            assert forall|i: int| 0 <= i < s.len() implies !stands_before(e, #[trigger] s[i]) by {
                if i < s.len() - 1 && stands_before(e, s[i]) {
                    assert(!stands_before(last, s[i]));
                }
            }
        }
    }
}

/// What is kept is in order: by key, and the newer versions of a key first.
pub proof fn law_kept_is_in_order(
    all: Seq<Versioned>,
    es: Seq<Versioned>,
    horizon: u64,
    deepest: bool,
)
    ensures
        in_order(kept_versions(all, es, horizon, deepest)),
    decreases es.len(),
{
    if es.len() > 0 {
        law_kept_is_in_order(all, es.drop_last(), horizon, deepest);
        let s = kept_versions(all, es.drop_last(), horizon, deepest);
        let e = es.last();
        lemma_place_splits(s, e);
        lemma_stands_before();
        let p = place_in(s, e);
        let t = s.insert(p, e);
        assert forall|i: int, j: int| 0 <= i < j < t.len() implies !stands_before(
            #[trigger] t[j],
            #[trigger] t[i],
        ) by {
            let a = if i < p {
                i
            } else {
                i - 1
            };
            let b = if j < p {
                j
            } else {
                j - 1
            };
            if i == p {
                assert(t[j] == s[b]);
                assert(stands_before(e, s[b]));
            } else if j == p {
                assert(t[i] == s[a]);
            } else {
                assert(t[i] == s[a] && t[j] == s[b]);
            }
        }
    }
}

/// The version stands in the list.
pub open spec fn holds(s: Seq<Versioned>, e: Versioned) -> bool {
    exists|i: int| 0 <= i < s.len() && #[trigger] s[i] == e
}

/// Exactly the versions that are to be kept are kept.
pub proof fn law_kept_or_dropped(
    all: Seq<Versioned>,
    es: Seq<Versioned>,
    horizon: u64,
    deepest: bool,
    e: Versioned,
)
    ensures
        holds(kept_versions(all, es, horizon, deepest), e) <==> holds(es, e) && is_kept(
            all,
            horizon,
            deepest,
            e,
        ),
    decreases es.len(),
{
    if es.len() > 0 {
        let less = es.drop_last();
        law_kept_or_dropped(all, less, horizon, deepest, e);
        let s = kept_versions(all, less, horizon, deepest);
        let t = kept_versions(all, es, horizon, deepest);
        let x = es[es.len() - 1];
        let p = place_in(s, x);
        lemma_place(s, x);
        if holds(es, e) {
            let i = choose|i: int| 0 <= i < es.len() && #[trigger] es[i] == e;
            if i < less.len() {
                assert(less[i] == e);
            }
        }
        if holds(less, e) {
            let i = choose|i: int| 0 <= i < less.len() && #[trigger] less[i] == e;
            assert(es[i] == e);
        }
        if is_kept(all, horizon, deepest, x) {
            assert(t == s.insert(p, x));
            assert(t[p] == x);
            if holds(t, e) {
                let i = choose|i: int| 0 <= i < t.len() && #[trigger] t[i] == e;
                if i < p {
                    assert(s[i] == e);
                } else if i > p {
                    assert(s[i - 1] == e);
                }
            }
            if holds(s, e) {
                let i = choose|i: int| 0 <= i < s.len() && #[trigger] s[i] == e;
                if i < p {
                    assert(t[i] == e);
                } else {
                    assert(t[i + 1] == e);
                }
            }
        }
    }
}

proof fn lemma_newest(es: Seq<Versioned>, key: Seq<u8>)
    ensures
        match newest(es, key) {
            Some(n) => n.0 == key && holds(es, n),
            None => true,
        },
        forall|i: int|
            0 <= i < es.len() && (#[trigger] es[i]).0 == key ==> newest(es, key) is Some && es[i].1
                <= (newest(es, key)->0).1,
    decreases es.len(),
{
    if es.len() > 0 {
        let less = es.drop_last();
        lemma_newest(less, key);
        let x = es[es.len() - 1];
        if newest(less, key) is Some {
            let n = newest(less, key)->0;
            let i = choose|i: int| 0 <= i < less.len() && #[trigger] less[i] == n;
            assert(es[i] == n);
        }
        assert forall|i: int| 0 <= i < es.len() && (#[trigger] es[i]).0 == key implies newest(
            es,
            key,
        ) is Some && es[i].1 <= (newest(es, key)->0).1 by {
            if i < less.len() {
                assert(less[i] == es[i]);
            }
        }
    }
}

proof fn lemma_newest_concat(a: Seq<Versioned>, b: Seq<Versioned>, key: Seq<u8>)
    ensures
        newest(a + b, key) == (match (newest(a, key), newest(b, key)) {
            (Some(x), Some(y)) => if y.1 > x.1 {
                Some(y)
            } else {
                Some(x)
            },
            (None, y) => y,
            (x, None) => x,
        }),
    decreases b.len(),
{
    if b.len() == 0 {
        assert(a + b =~= a);
    } else {
        lemma_newest_concat(a, b.drop_last(), key);
        assert((a + b).drop_last() =~= a + b.drop_last());
        assert((a + b).last() == b.last());
    }
}

/// The newest version of a key in an ordered list to which one was added.
proof fn lemma_newest_insert(s: Seq<Versioned>, e: Versioned, key: Seq<u8>)
    requires
        in_order(s),
    ensures
        newest(s.insert(place_in(s, e), e), key) == (if e.0 != key {
            newest(s, key)
        } else {
            match newest(s, key) {
                Some(n) => if e.1 > n.1 {
                    Some(e)
                } else {
                    Some(n)
                },
                None => Some(e),
            }
        }),
{
    lemma_place_splits(s, e);
    let p = place_in(s, e);
    let (a, b) = (s.take(p), s.skip(p));
    assert(s =~= a + b);
    assert(s.insert(p, e) =~= a.push(e) + b);
    assert(a.push(e).drop_last() =~= a);
    lemma_newest_concat(a, b, key);
    lemma_newest_concat(a.push(e), b, key);
    lemma_newest(b, key);
    if e.0 == key && newest(b, key) is Some {
        let n = newest(b, key)->0;
        let i = choose|i: int| 0 <= i < b.len() && #[trigger] b[i] == n;
        assert(b[i] == s[p + i]);
        lemma_lex_irreflexive(key);
    }
}

/// The newest version of a key among those of `es` that are kept, if `es` has one with
/// the number of the newest of all.
proof fn lemma_newest_kept(
    all: Seq<Versioned>,
    es: Seq<Versioned>,
    horizon: u64,
    deepest: bool,
    key: Seq<u8>,
)
    requires
        newest(all, key) matches Some(n) && !(deepest && n.2 is None && n.1 <= horizon),
        newest(es, key) matches Some(n) ==> n.1 <= (newest(all, key)->0).1,
    ensures
        ({
            let top = (newest(all, key)->0).1;
            let kept = newest(kept_versions(all, es, horizon, deepest), key);
            match newest(es, key) {
                Some(n) => if n.1 == top {
                    kept == Some(n)
                } else {
                    kept matches Some(m) ==> m.1 < top
                },
                None => kept is None,
            }
        }),
    decreases es.len(),
{
    if es.len() > 0 {
        let e = es.last();
        let less = es.drop_last();
        lemma_newest_kept(all, less, horizon, deepest, key);
        let s = kept_versions(all, less, horizon, deepest);
        law_kept_is_in_order(all, less, horizon, deepest);
        lemma_newest_insert(s, e, key);
    }
}

/// What is all kept and in order stays as it is.
proof fn lemma_all_kept(all: Seq<Versioned>, es: Seq<Versioned>, horizon: u64, deepest: bool)
    requires
        in_order(es),
        forall|i: int| 0 <= i < es.len() ==> is_kept(all, horizon, deepest, #[trigger] es[i]),
    ensures
        kept_versions(all, es, horizon, deepest) == es,
    decreases es.len(),
{
    if es.len() > 0 {
        let less = es.drop_last();
        let e = es[es.len() - 1];
        assert forall|i: int, j: int| 0 <= i < j < less.len() implies !stands_before(
            #[trigger] less[j],
            #[trigger] less[i],
        ) by {
            assert(less[i] == es[i] && less[j] == es[j]);
        }
        assert forall|i: int| 0 <= i < less.len() implies is_kept(
            all,
            horizon,
            deepest,
            #[trigger] less[i],
        ) by {
            assert(less[i] == es[i]);
        }
        lemma_all_kept(all, less, horizon, deepest);
        if less.len() > 0 {
            assert(!stands_before(e, es[less.len() - 1]));
        }
        assert(place_in(less, e) == less.len());
        assert(less.insert(less.len() as int, e) =~= es);
    }
}

/// Dropping versions twice drops no more than doing so once.
pub proof fn law_filtering_again_changes_nothing(
    es: Seq<Versioned>,
    horizon: u64,
    deepest: bool,
)
    ensures
        ({
            let out = kept_versions(es, es, horizon, deepest);
            kept_versions(out, out, horizon, deepest) == out
        }),
{
    let out = kept_versions(es, es, horizon, deepest);
    law_kept_is_in_order(es, es, horizon, deepest);
    assert forall|i: int| 0 <= i < out.len() implies is_kept(
        out,
        horizon,
        deepest,
        #[trigger] out[i],
    ) by {
        let e = out[i];
        assert(holds(out, e));
        law_kept_or_dropped(es, es, horizon, deepest, e);
        lemma_newest_kept(es, es, horizon, deepest, e.0);
    }
    lemma_all_kept(out, out, horizon, deepest);
}

/// The newest version of a key is never dropped, but for a tombstone at the deepest
/// level that is not above the horizon; with that one, all versions of its key go.
pub proof fn law_newest_is_kept(es: Seq<Versioned>, horizon: u64, deepest: bool, key: Seq<u8>)
    ensures
        ({
            let out = kept_versions(es, es, horizon, deepest);
            match newest(es, key) {
                Some(n) => if deepest && n.2 is None && n.1 <= horizon {
                    forall|e: Versioned| e.0 == key ==> !#[trigger] holds(out, e)
                } else {
                    holds(out, n)
                },
                None => forall|e: Versioned| e.0 == key ==> !#[trigger] holds(out, e),
            }
        }),
{
    let out = kept_versions(es, es, horizon, deepest);
    lemma_newest(es, key);
    if newest(es, key) is Some {
        law_kept_or_dropped(es, es, horizon, deepest, newest(es, key)->0);
    }
    assert forall|e: Versioned| e.0 == key && #[trigger] holds(out, e) implies is_kept(
        es,
        horizon,
        deepest,
        e,
    ) by {
        law_kept_or_dropped(es, es, horizon, deepest, e);
    }
}

/// Versions as mathematical values are the versions, one by one.
pub proof fn law_version_views(v: Seq<(Vec<u8>, u64, Option<Vec<u8>>)>, i: int)
    requires
        0 <= i < v.len(),
    ensures
        version_views(v).len() == v.len(),
        version_views(v)[i].0 == v[i].0@,
        version_views(v)[i].1 == v[i].1,
        version_views(v)[i].2 is Some == v[i].2 is Some,
        v[i].2 is Some ==> version_views(v)[i].2->0 == v[i].2->0@,
{
}

/// The horizon is below every number that a live snapshot is pinned at, as far as a number
/// can be, and right below one of them. Without live snapshots there is none.
pub proof fn law_horizon_is_right_below_the_oldest(reg: &SnapshotRegistry, r: u64, pinned: u64)
    requires
        call_ensures(SnapshotRegistry::safe_horizon, (reg,), r),
    ensures
        reg@.len() == 0 ==> r == u64::MAX,
        reg@.count(pinned) > 0 && pinned > 0 ==> r < pinned,
        reg@.count(pinned) > 0 && pinned == 0 ==> r == 0,
        reg@.len() > 0 ==> exists|x: u64|
            #![trigger reg@.count(x)]
            reg@.count(x) > 0 && (r + 1 == x || (x == 0 && r == 0)),
{
    if reg@.len() > 0 {
        let x = choose|x: u64|
            #[trigger] is_least(reg@, x) && r == (if x == 0 {
                0
            } else {
                (x - 1) as u64
            });
        assert(is_least(reg@, x));
        assert(reg@.count(x) > 0);
    } else {
        assert(reg@.count(pinned) == 0) by {
            if reg@.count(pinned) > 0 {
                assert(reg@.remove(pinned).len() + 1 == reg@.len());
            }
        }
    }
}

/// What is kept stands in order: keys ascend, and numbers of one key descend.
pub proof fn law_kept_keys_ascend(
    es: Seq<Versioned>,
    horizon: u64,
    deepest: bool,
    i: int,
    j: int,
)
    requires
        0 <= i < j < kept_versions(es, es, horizon, deepest).len(),
    ensures
        ({
            let out = kept_versions(es, es, horizon, deepest);
            lex_lt(out[i].0, out[j].0) || (out[i].0 == out[j].0 && out[i].1 >= out[j].1)
        }),
{
    law_kept_is_in_order(es, es, horizon, deepest);
    let out = kept_versions(es, es, horizon, deepest);
    assert(!stands_before(out[j], out[i]));
    lemma_lex_total(out[i].0, out[j].0);
}

/// Which versions of a key stay, if one of them is newer than all others: if that one is a
/// tombstone of the deepest level that is not above the horizon, none; else that one, and
/// of the others those above the horizon.
pub proof fn law_which_versions_stay(
    es: Seq<Versioned>,
    horizon: u64,
    deepest: bool,
    i: int,
    j: int,
)
    requires
        0 <= i < es.len(),
        0 <= j < es.len(),
        es[j].0 == es[i].0,
        forall|k: int|
            0 <= k < es.len() && k != i && (#[trigger] es[k]).0 == es[i].0 ==> es[k].1 < es[i].1,
    ensures
        ({
            let out = kept_versions(es, es, horizon, deepest);
            let gone = deepest && es[i].2 is None && es[i].1 <= horizon;
            (exists|k: int| 0 <= k < out.len() && #[trigger] out[k] == es[j]) <==> !gone && (j == i
                || es[j].1 > horizon)
        }),
{
    let out = kept_versions(es, es, horizon, deepest);
    let key = es[i].0;
    lemma_newest(es, key);
    let n = newest(es, key)->0;
    let k = choose|k: int| 0 <= k < es.len() && #[trigger] es[k] == n;
    assert(k == i);
    law_kept_or_dropped(es, es, horizon, deepest, es[j]);
    assert(holds(es, es[j]));
    assert(holds(out, es[j]) <==> exists|k: int|
        0 <= k < out.len() && #[trigger] out[k] == es[j]);
}

/// No version is invented, and none is kept more often than it was there.
pub proof fn law_kept_versions_were_there(
    all: Seq<Versioned>,
    es: Seq<Versioned>,
    horizon: u64,
    deepest: bool,
    e: Versioned,
)
    ensures
        kept_versions(all, es, horizon, deepest).to_multiset().count(e) == 0
            || kept_versions(all, es, horizon, deepest).to_multiset().count(e)
            == es.to_multiset().count(e),
        kept_versions(all, es, horizon, deepest).to_multiset().count(e)
            == es.to_multiset().count(e) || !is_kept(all, horizon, deepest, e),
    decreases es.len(),
{
    broadcast use group_to_multiset_ensures;
    if es.len() > 0 {
        let less = es.drop_last();
        let x = es.last();
        law_kept_versions_were_there(all, less, horizon, deepest, e);
        assert(es =~= less.push(x));
        let s = kept_versions(all, less, horizon, deepest);
        lemma_place(s, x);
        if is_kept(all, horizon, deepest, x) {
            vstd::seq_lib::to_multiset_insert(s, place_in(s, x), x);
        }
        law_kept_or_dropped(all, less, horizon, deepest, e);
        lemma_count_holds(s, e);
    }
}

proof fn lemma_count_holds(s: Seq<Versioned>, e: Versioned)
    ensures
        s.to_multiset().count(e) > 0 <==> holds(s, e),
{
    broadcast use group_to_multiset_ensures;
    if holds(s, e) {
        let i = choose|i: int| 0 <= i < s.len() && #[trigger] s[i] == e;
        assert(s.contains(e));
    }
    if s.contains(e) {
        let i = choose|i: int| 0 <= i < s.len() && s[i] == e;
        assert(s[i] == e);
    }
}

} // verus!
