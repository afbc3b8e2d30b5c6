//! Filters that a merge of tables asks about every live entry.

use crate::bytes::{be_bytes, be_value, copy_bytes, get_be, has_prefix, law_prefix_and_rest,
    lemma_be_round_trip, lemma_pow256_values, starts_with};
use crate::clock::{is_reading, now_ms};
use crate::snapshot_gc::{version_views, Versioned};
use vstd::prelude::*;

verus! {

/// What a filter decides about an entry.
#[derive(Debug)]
pub enum FilterDecision {
    /// Keep the entry as it is.
    Keep,
    /// Keep the entry with another value.
    Replace(Vec<u8>),
    /// Drop the entry.
    Remove,
}

/// What a filter decides about an entry, as a mathematical value.
pub enum Decision {
    Keep,
    Replace(Seq<u8>),
    Remove,
}

impl View for FilterDecision {
    type V = Decision;

    open spec fn view(&self) -> Decision {
        match *self {
            FilterDecision::Keep => Decision::Keep,
            FilterDecision::Replace(v) => Decision::Replace(v@),
            FilterDecision::Remove => Decision::Remove,
        }
    }
}

/// A filter that users of the library may define.
pub trait CompactionFilter: Send + Sync {
    /// The filter can be asked.
    spec fn ready(&self) -> bool;

    /// Whether `d` may be what the filter decides about an entry.
    spec fn decides(&self, key: Seq<u8>, value: Seq<u8>, d: Decision) -> bool;

    /// Decide about a live entry.
    fn filter(&self, key: &[u8], value: &[u8]) -> (r: FilterDecision)
        requires
            self.ready(),
        ensures
            self.decides(key@, value@, r@),
    ;

    /// The name of the filter.
    fn name(&self) -> (r: &str)
        default_ensures
            r@ == "unnamed_filter"@,
    {
        "unnamed_filter"
    }
}

// ---- filters -------------------------------------------------------------------

/// Drops values that begin with a time that is past: milliseconds since the Unix
/// epoch as eight bytes, the most significant first. A time of 0 is never past, and
/// shorter values are kept.
pub struct ExpiryPrefixFilter;

/// What is decided about a value when the clock shows `now`.
pub open spec fn expiry_decision(value: Seq<u8>, now: u64) -> Decision {
    if value.len() >= 8 && 0 < be_value(value.take(8)) < now {
        Decision::Remove
    } else {
        Decision::Keep
    }
}

impl ExpiryPrefixFilter {
    /// Decide about a value when the clock shows `now`.
    pub fn filter_at(&self, value: &[u8], now: u64) -> (r: FilterDecision)
        ensures
            r@ == expiry_decision(value@, now),
    {
        if value.len() < 8 {
            return FilterDecision::Keep;
        }
        let ts: u64 = get_be(value, 0, 8);
        assert(value@.subrange(0, 8) =~= value@.take(8));
        if ts != 0 && now > ts {
            FilterDecision::Remove
        } else {
            FilterDecision::Keep
        }
    }
}

impl CompactionFilter for ExpiryPrefixFilter {
    open spec fn ready(&self) -> bool {
        true
    }

    open spec fn decides(&self, key: Seq<u8>, value: Seq<u8>, d: Decision) -> bool {
        exists|now: u64| is_reading(now) && d == #[trigger] expiry_decision(value, now)
    }

    fn filter(&self, key: &[u8], value: &[u8]) -> (r: FilterDecision) {
        let now: u64 = now_ms();
        self.filter_at(value, now)
    }

    fn name(&self) -> (r: &str)
        ensures
            r@ == "expiry_prefix_filter"@,
    {
        "expiry_prefix_filter"
    }
}

/// Drops the keys that begin with a prefix.
pub struct PrefixDropFilter {
    prefix: Vec<u8>,
}

impl PrefixDropFilter {
    /// The prefix.
    pub closed spec fn dropped(&self) -> Seq<u8> {
        self.prefix@
    }

    /// A filter for one prefix.
    pub fn new(prefix: Vec<u8>) -> (r: PrefixDropFilter)
        ensures
            r.dropped() == prefix@,
    {
        PrefixDropFilter { prefix }
    }
}

impl CompactionFilter for PrefixDropFilter {
    open spec fn ready(&self) -> bool {
        true
    }

    open spec fn decides(&self, key: Seq<u8>, value: Seq<u8>, d: Decision) -> bool {
        d == (if has_prefix(key, self.dropped()) {
            Decision::Remove
        } else {
            Decision::Keep
        })
    }

    fn filter(&self, key: &[u8], value: &[u8]) -> (r: FilterDecision) {
        if starts_with(key, self.prefix.as_slice()) {
            FilterDecision::Remove
        } else {
            FilterDecision::Keep
        }
    }

    fn name(&self) -> (r: &str)
        ensures
            r@ == "prefix_drop_filter"@,
    {
        "prefix_drop_filter"
    }
}

/// Decides by a function.
pub struct FnFilter<F> {
    pub name: String,
    pub f: F,
}

impl<F> FnFilter<F> where F: Fn(&[u8], &[u8]) -> FilterDecision + Send + Sync {
    /// A filter with a name that decides by `f`.
    pub fn new(name: &str, f: F) -> (r: FnFilter<F>)
        requires
            forall|k: &[u8], v: &[u8]| #[trigger] call_requires(f, (k, v)),
        ensures
            r.name@ == name@,
            r.f == f,
            r.ready(),
    {
        FnFilter { name: name.to_owned(), f }
    }
}

impl<F> CompactionFilter for FnFilter<F> where
    F: Fn(&[u8], &[u8]) -> FilterDecision + Send + Sync,
 {
    open spec fn ready(&self) -> bool {
        forall|k: &[u8], v: &[u8]| #[trigger] call_requires(self.f, (k, v))
    }

    open spec fn decides(&self, key: Seq<u8>, value: Seq<u8>, d: Decision) -> bool {
        exists|k: &[u8], v: &[u8], r: FilterDecision|
            k@ == key && v@ == value && r@ == d && #[trigger] call_ensures(self.f, (k, v), r)
    }

    fn filter(&self, key: &[u8], value: &[u8]) -> (r: FilterDecision) {
        (self.f)(key, value)
    }

    fn name(&self) -> (r: &str)
        ensures
            r@ == self.name@,
    {
        self.name.as_str()
    }
}

// ---- filtering a list ----------------------------------------------------------

/// What becomes of an entry about which `d` is decided. Nobody is asked about a
/// tombstone, which stays.
pub open spec fn filtered_entry(e: Versioned, d: Decision) -> Seq<Versioned> {
    match e.2 {
        None => seq![e],
        Some(_) => match d {
            Decision::Keep => seq![e],
            Decision::Replace(v) => seq![(e.0, e.1, Some(v))],
            Decision::Remove => Seq::empty(),
        },
    }
}

/// What becomes of a list, with what is decided about each entry.
pub open spec fn filtered(es: Seq<Versioned>, ds: Seq<Decision>) -> Seq<Versioned>
    decreases es.len(),
{
    if es.len() == 0 {
        Seq::empty()
    } else {
        filtered(es.drop_last(), ds.drop_last()) + filtered_entry(es.last(), ds.last())
    }
}

/// The decisions are ones that the filter may make.
pub open spec fn decided<C: CompactionFilter>(filter: &C, es: Seq<Versioned>, ds: Seq<Decision>) -> bool {
    &&& ds.len() == es.len()
    &&& forall|i: int|
        0 <= i < es.len() && (#[trigger] es[i]).2 is Some ==> filter.decides(
            es[i].0,
            es[i].2->0,
            ds[i],
        )
}

/// Ask a filter about every live entry of a list. Tombstones stay.
pub fn apply_filter<C: CompactionFilter>(
    entries: Vec<(Vec<u8>, u64, Option<Vec<u8>>)>,
    filter: &C,
) -> (r: Vec<(Vec<u8>, u64, Option<Vec<u8>>)>)
    requires
        filter.ready(),
    ensures
        exists|ds: Seq<Decision>| #[trigger]
            decided(filter, version_views(entries@), ds) && version_views(r@) == filtered(
                version_views(entries@),
                ds,
            ),
{
    let ghost es = version_views(entries@);
    let ghost mut ds = Seq::<Decision>::empty();
    let mut out: Vec<(Vec<u8>, u64, Option<Vec<u8>>)> = Vec::new();
    let mut i: usize = 0;
    assert(es.take(0) =~= Seq::<Versioned>::empty());
    assert(version_views(out@) =~= Seq::<Versioned>::empty());
    while i < entries.len()
        invariant
            filter.ready(),
            i <= entries@.len(),
            es == version_views(entries@),
            decided(filter, es.take(i as int), ds),
            version_views(out@) == filtered(es.take(i as int), ds),
        decreases entries@.len() - i,
    {
        let ghost e = es[i as int];
        let ghost before = version_views(out@);
        let ghost old_ds = ds;
        let key: Vec<u8> = copy_bytes(entries[i].0.as_slice());
        let seq: u64 = entries[i].1;
        match &entries[i].2 {
            None => {
                out.push((key, seq, None));
                proof {
                    ds = ds.push(Decision::Keep);
                    assert(version_views(out@) =~= before + seq![e]);
                }
            },
            Some(val) => {
                let d: FilterDecision = filter.filter(key.as_slice(), val.as_slice());
                proof {
                    ds = ds.push(d@);
                }
                match d {
                    FilterDecision::Keep => {
                        out.push((key, seq, Some(copy_bytes(val.as_slice()))));
                        assert(version_views(out@) =~= before + seq![e]);
                    },
                    FilterDecision::Replace(v) => {
                        let ghost x = (e.0, e.1, Some(v@));
                        out.push((key, seq, Some(v)));
                        assert(version_views(out@) =~= before + seq![x]);
                    },
                    FilterDecision::Remove => {
                        assert(version_views(out@) =~= before + Seq::<Versioned>::empty());
                    },
                }
            },
        }
        proof {
            let t = es.take(i + 1);
            assert(t.drop_last() =~= es.take(i as int));
            assert(t.last() == e);
            assert(ds.drop_last() =~= old_ds);
            assert forall|j: int| 0 <= j < t.len() && (#[trigger] t[j]).2 is Some implies
                filter.decides(t[j].0, t[j].2->0, ds[j]) by {
                if j < i {
                    assert(t[j] == es.take(i as int)[j]);
                }
            }
        }
        i = i + 1;
    }
    assert(es.take(i as int) =~= es);
    out
}

/// Tombstones stay, whatever a filter decides.
pub proof fn law_tombstones_stay(es: Seq<Versioned>, ds: Seq<Decision>, i: int)
    requires
        ds.len() == es.len(),
        0 <= i < es.len(),
        es[i].2 is None,
    ensures
        filtered(es, ds).contains(es[i]),
    decreases es.len(),
{
    let all = filtered(es, ds);
    let front = filtered(es.drop_last(), ds.drop_last());
    if i == es.len() - 1 {
        assert(all[front.len() as int] == es[i]);
    } else {
        law_tombstones_stay(es.drop_last(), ds.drop_last(), i);
        let j = choose|j: int| 0 <= j < front.len() && front[j] == es[i];
        assert(all[j] == es[i]);
    }
}

/// A filter adds no keys: every entry that is left has the key and the number of one
/// that was there.
pub proof fn law_filter_adds_nothing(es: Seq<Versioned>, ds: Seq<Decision>, j: int)
    requires
        ds.len() == es.len(),
        0 <= j < filtered(es, ds).len(),
    ensures
        exists|i: int|
            0 <= i < es.len() && (#[trigger] es[i]).0 == filtered(es, ds)[j].0 && es[i].1
                == filtered(es, ds)[j].1,
    decreases es.len(),
{
    let less = es.drop_last();
    let front = filtered(less, ds.drop_last());
    if es.len() > 0 {
        if j < front.len() {
            law_filter_adds_nothing(less, ds.drop_last(), j);
            let i = choose|i: int|
                0 <= i < less.len() && (#[trigger] less[i]).0 == front[j].0 && less[i].1
                    == front[j].1;
            assert(es[i] == less[i]);
        } else {
            assert(es[es.len() - 1].0 == filtered(es, ds)[j].0);
        }
    }
}

/// A value with a time in front is dropped if and only if that time is not 0 and is past;
/// a value too short to hold a time is kept.
pub proof fn law_values_expire_by_the_time_in_front(
    filter: &ExpiryPrefixFilter,
    value: &[u8],
    now: u64,
    r: FilterDecision,
    time: u64,
    rest: Seq<u8>,
)
    requires
        call_ensures(ExpiryPrefixFilter::filter_at, (filter, value, now), r),
    ensures
        value@.len() < 8 ==> r is Keep,
        value@ == be_bytes(time as nat, 8) + rest && time > 0 && now > time ==> r is Remove,
        value@ == be_bytes(time as nat, 8) + rest && (time == 0 || now <= time) ==> r is Keep,
{
    lemma_be_round_trip(time as nat, 8);
    lemma_pow256_values();
    if value@ == be_bytes(time as nat, 8) + rest {
        assert(value@.take(8) =~= be_bytes(time as nat, 8));
    }
}

/// The same holds of the filter that looks at the clock, by what the clock shows.
pub proof fn law_expiry_filter_looks_at_the_clock(
    filter: &ExpiryPrefixFilter,
    key: &[u8],
    value: &[u8],
    r: FilterDecision,
    time: u64,
    rest: Seq<u8>,
)
    requires
        call_ensures(ExpiryPrefixFilter::filter, (filter, key, value), r),
        value@ == be_bytes(time as nat, 8) + rest,
    ensures
        exists|now: u64|
            #![trigger is_reading(now)]
            is_reading(now) && (if time > 0 && now > time {
                r is Remove
            } else {
                r is Keep
            }),
{
    lemma_be_round_trip(time as nat, 8);
    lemma_pow256_values();
    assert(value@.take(8) =~= be_bytes(time as nat, 8));
}

/// Exactly the keys that are the prefix and some bytes behind it are dropped.
pub proof fn law_prefix_filter_drops_the_prefix(
    filter: &PrefixDropFilter,
    key: &[u8],
    value: &[u8],
    r: FilterDecision,
    rest: Seq<u8>,
)
    requires
        call_ensures(PrefixDropFilter::filter, (filter, key, value), r),
    ensures
        key@ == filter.dropped() + rest ==> r is Remove,
        r is Remove ==> filter.dropped().len() <= key@.len() && key@ == filter.dropped()
            + key@.skip(filter.dropped().len() as int),
        r is Remove || r is Keep,
{
    law_prefix_and_rest(key@, filter.dropped(), rest);
}

/// A list is filtered part by part, in its order.
pub proof fn law_parts_are_filtered_apart(
    a: Seq<Versioned>,
    da: Seq<Decision>,
    b: Seq<Versioned>,
    db: Seq<Decision>,
)
    requires
        a.len() == da.len(),
        b.len() == db.len(),
    ensures
        filtered(a + b, da + db) == filtered(a, da) + filtered(b, db),
    decreases b.len(),
{
    if b.len() == 0 {
        assert(a + b =~= a);
        assert(da + db =~= da);
        assert(filtered(a, da) + filtered(b, db) =~= filtered(a, da));
    } else {
        law_parts_are_filtered_apart(a, da, b.drop_last(), db.drop_last());
        assert((a + b).drop_last() =~= a + b.drop_last());
        assert((da + db).drop_last() =~= da + db.drop_last());
        let last = filtered_entry(b.last(), db.last());
        assert(filtered(a, da) + filtered(b.drop_last(), db.drop_last()) + last =~= filtered(a, da)
            + filtered(b, db));
    }
}

/// Of a single entry: a tombstone stays, and of a live one the key and the number stay,
/// with the value that it had or the one that is decided on, unless it is dropped.
pub proof fn law_one_entry_is_filtered(
    key: Seq<u8>,
    seq: u64,
    value: Seq<u8>,
    other: Seq<u8>,
    d: Decision,
)
    ensures
        filtered(Seq::empty(), Seq::empty()) == Seq::<Versioned>::empty(),
        filtered(seq![(key, seq, None)], seq![d]) == seq![(key, seq, None::<Seq<u8>>)],
        filtered(seq![(key, seq, Some(value))], seq![Decision::Keep]) == seq![
            (key, seq, Some(value)),
        ],
        filtered(seq![(key, seq, Some(value))], seq![Decision::Replace(other)]) == seq![
            (key, seq, Some(other)),
        ],
        filtered(seq![(key, seq, Some(value))], seq![Decision::Remove]) == Seq::<
            Versioned,
        >::empty(),
{
    reveal_with_fuel(filtered, 2);
    let none: Seq<Versioned> = seq![(key, seq, None)];
    let some: Seq<Versioned> = seq![(key, seq, Some(value))];
    assert(none.drop_last() =~= Seq::<Versioned>::empty());
    assert(some.drop_last() =~= Seq::<Versioned>::empty());
    assert(filtered(none, seq![d]) =~= none);
    assert(filtered(some, seq![Decision::Keep]) =~= some);
    assert(filtered(some, seq![Decision::Replace(other)]) =~= seq![(key, seq, Some(other))]);
    assert(filtered(some, seq![Decision::Remove]) =~= Seq::<Versioned>::empty());
}

} // verus!
