//! A map from byte strings, kept as a vector that is sorted by key.

use crate::bytes::{bytes_eq, bytes_lt, lemma_lex_irreflexive, lemma_lex_order, lemma_lex_total,
    lex_lt, Model};
use vstd::prelude::*;

verus! {

/// Keys in strictly ascending order, so that none occurs twice.
pub open spec fn keys_ascend<A>(s: Seq<(Seq<u8>, A)>) -> bool {
    forall|i: int, j: int| 0 <= i < j < s.len() ==> lex_lt(#[trigger] s[i].0, #[trigger] s[j].0)
}

/// Position `i` of `s` holds the key `k`.
pub open spec fn holds_key<K, A>(s: Seq<(K, A)>, k: K, i: int) -> bool {
    0 <= i < s.len() && s[i].0 == k
}

/// The map that an association list stands for: where a key occurs more than
/// once, its last pair counts.
pub open spec fn assoc<K, A>(s: Seq<(K, A)>) -> Map<K, A>
    decreases s.len(),
{
    if s.len() == 0 {
        Map::empty()
    } else {
        assoc(s.drop_last()).insert(s.last().0, s.last().1)
    }
}

/// The pairs of an exec vector, as mathematical values.
pub open spec fn pairs<V: Model>(v: Seq<(Vec<u8>, V)>) -> Seq<(Seq<u8>, V::M)> {
    v.map_values(|p: (Vec<u8>, V)| (p.0@, p.1.model()))
}

/// A key is in the map of a list if and only if some pair of the list has it.
pub proof fn lemma_assoc_contains<K, A>(s: Seq<(K, A)>, k: K)
    ensures
        assoc(s).contains_key(k) <==> exists|i: int| holds_key(s, k, i),
    decreases s.len(),
{
    if s.len() > 0 {
        lemma_assoc_contains(s.drop_last(), k);
        if assoc(s).contains_key(k) {
            if s.last().0 == k {
                assert(holds_key(s, k, s.len() - 1));
            } else {
                let i = choose|i: int| holds_key(s.drop_last(), k, i);
                assert(holds_key(s, k, i));
            }
        }
        if exists|i: int| holds_key(s, k, i) {
            let i = choose|i: int| holds_key(s, k, i);
            if i < s.len() - 1 {
                assert(holds_key(s.drop_last(), k, i));
            }
        }
    }
}

/// In a list whose keys ascend, every pair is a pair of the map.
pub proof fn lemma_assoc_index<A>(s: Seq<(Seq<u8>, A)>, i: int)
    requires
        keys_ascend(s),
        0 <= i < s.len(),
    ensures
        assoc(s).contains_key(s[i].0),
        assoc(s)[s[i].0] == s[i].1,
    decreases s.len(),
{
    if i < s.len() - 1 {
        lemma_assoc_index(s.drop_last(), i);
        lemma_lex_irreflexive(s[i].0);
        assert(s.drop_last()[i] == s[i]);
        assert(s.last() == s[s.len() - 1]);
    }
}

/// Two lists whose keys ascend and that stand for the same map are the same.
pub proof fn lemma_assoc_determines<A>(s: Seq<(Seq<u8>, A)>, t: Seq<(Seq<u8>, A)>)
    requires
        keys_ascend(s),
        keys_ascend(t),
        assoc(s) == assoc(t),
    ensures
        s == t,
    decreases s.len(),
{
    lemma_lex_order();
    if s.len() == 0 {
        if t.len() > 0 {
            lemma_assoc_index(t, 0);
        }
        assert(s =~= t);
    } else {
        lemma_assoc_index(s, s.len() - 1);
        lemma_assoc_contains(t, s.last().0);
        let j = choose|j: int| holds_key(t, s.last().0, j);
        lemma_assoc_index(t, t.len() - 1);
        lemma_assoc_contains(s, t.last().0);
        let i = choose|i: int| holds_key(s, t.last().0, i);
        if j < t.len() - 1 {
            assert(lex_lt(t[j].0, t[t.len() - 1].0));
            if i < s.len() - 1 {
                assert(lex_lt(s[i].0, s[s.len() - 1].0));
            }
            assert(false);
        }
        lemma_assoc_index(t, j);
        let s1 = s.drop_last();
        let t1 = t.drop_last();
        assert forall|k: Seq<u8>| #[trigger] assoc(s1).contains_key(k) == assoc(t1).contains_key(k)
            && (assoc(s1).contains_key(k) ==> assoc(s1)[k] == assoc(t1)[k]) by {
            let last = s.last().0;
            lemma_assoc_contains(s1, k);
            lemma_assoc_contains(t1, k);
            if k == last {
                if assoc(s1).contains_key(k) {
                    let a = choose|a: int| holds_key(s1, k, a);
                    assert(holds_key(s1, k, a));
                    assert(s1[a] == s[a]);
                    assert(lex_lt(s[a].0, s[s.len() - 1].0));
                }
                if assoc(t1).contains_key(k) {
                    let a = choose|a: int| holds_key(t1, k, a);
                    assert(holds_key(t1, k, a));
                    assert(t1[a] == t[a]);
                    assert(lex_lt(t[a].0, t[t.len() - 1].0));
                }
            } else {
                assert(assoc(s).contains_key(k) == assoc(s1).contains_key(k));
                assert(assoc(t).contains_key(k) == assoc(t1).contains_key(k));
                assert(assoc(s1).contains_key(k) ==> assoc(s)[k] == assoc(s1)[k]);
                assert(assoc(t1).contains_key(k) ==> assoc(t)[k] == assoc(t1)[k]);
            }
        }
        assert(assoc(s1) =~= assoc(t1));
        lemma_assoc_determines(s1, t1);
        assert(s =~= s1.push(s.last()));
        assert(t =~= t1.push(t.last()));
    }
}

/// A map from byte strings to `V`, held as a vector sorted by key.
pub struct SortedMap<V> {
    entries: Vec<(Vec<u8>, V)>,
}

impl<V: Model> SortedMap<V> {
    /// The pairs in ascending key order.
    pub closed spec fn pairs(&self) -> Seq<(Seq<u8>, V::M)> {
        pairs(self.entries@)
    }

    /// The map that this stands for.
    pub open spec fn view(&self) -> Map<Seq<u8>, V::M> {
        assoc(self.pairs())
    }

    /// Keys ascend.
    pub open spec fn wf(&self) -> bool {
        keys_ascend(self.pairs())
    }

    /// An empty map.
    pub fn new() -> (r: Self)
        ensures
            r.wf(),
            r.pairs() == Seq::<(Seq<u8>, V::M)>::empty(),
            r@ == Map::<Seq<u8>, V::M>::empty(),
    {
        let r: SortedMap<V> = SortedMap { entries: Vec::new() };
        assert(r.pairs() =~= Seq::<(Seq<u8>, V::M)>::empty());
        r
    }

    /// The number of keys.
    pub fn len(&self) -> (n: usize)
        ensures
            n == self.pairs().len(),
    {
        self.entries.len()
    }

    /// The first position whose key does not come before `key`.
    pub fn lower_bound(&self, key: &[u8]) -> (i: usize)
        requires
            self.wf(),
        ensures
            i <= self.pairs().len(),
            forall|j: int| 0 <= j < i ==> lex_lt(#[trigger] self.pairs()[j].0, key@),
            forall|j: int|
                i <= j < self.pairs().len() ==> !lex_lt(#[trigger] self.pairs()[j].0, key@),
    {
        let ghost p = self.pairs();
        let mut lo: usize = 0;
        let mut hi: usize = self.entries.len();
        while lo < hi
            invariant
                self.wf(),
                p == self.pairs(),
                lo <= hi <= p.len(),
                p.len() == self.entries.len(),
                forall|j: int| 0 <= j < lo ==> lex_lt(#[trigger] p[j].0, key@),
                forall|j: int| hi <= j < p.len() ==> !lex_lt(#[trigger] p[j].0, key@),
            decreases hi - lo,
        {
            let mid: usize = lo + (hi - lo) / 2;
            assert(p[mid as int].0 == self.entries@[mid as int].0@);
            if bytes_lt(self.entries[mid].0.as_slice(), key) {
                proof {
                    lemma_lex_order();
                    assert forall|j: int| 0 <= j < mid + 1 implies lex_lt(
                        #[trigger] p[j].0,
                        key@,
                    ) by {
                        if j < mid {
                            assert(lex_lt(p[j].0, p[mid as int].0));
                        }
                    }
                }
                lo = mid + 1;
            } else {
                proof {
                    lemma_lex_order();
                    assert forall|j: int| mid <= j < p.len() implies !lex_lt(
                        #[trigger] p[j].0,
                        key@,
                    ) by {
                        if j > mid {
                            assert(lex_lt(p[mid as int].0, p[j].0));
                        }
                    }
                }
                hi = mid;
            }
        }
        lo
    }

    /// The position of `key`, if it is present.
    pub fn find(&self, key: &[u8]) -> (r: Option<usize>)
        requires
            self.wf(),
        ensures
            match r {
                Some(i) => {
                    &&& i < self.pairs().len()
                    &&& self.pairs()[i as int].0 == key@
                    &&& self@.contains_key(key@)
                    &&& self@[key@] == self.pairs()[i as int].1
                },
                None => !self@.contains_key(key@),
            },
    {
        let i: usize = self.lower_bound(key);
        let ghost p = self.pairs();
        if i < self.entries.len() {
            assert(p[i as int].0 == self.entries@[i as int].0@);
            if bytes_eq(self.entries[i].0.as_slice(), key) {
                proof {
                    lemma_assoc_index(p, i as int);
                }
                return Some(i);
            }
        }
        proof {
            lemma_lex_order();
            lemma_assoc_contains(p, key@);
            if self@.contains_key(key@) {
                let j = choose|j: int| holds_key(p, key@, j);
                assert(j >= i);
                if j > i {
                    assert(lex_lt(p[i as int].0, p[j].0));
                    assert(!lex_lt(p[i as int].0, key@));
                }
                assert(false);
            }
        }
        None
    }

    /// The value at `key`, if it is present.
    pub fn get(&self, key: &[u8]) -> (r: Option<&V>)
        requires
            self.wf(),
        ensures
            match r {
                Some(v) => self@.contains_key(key@) && v.model() == self@[key@],
                None => !self@.contains_key(key@),
            },
    {
        match self.find(key) {
            Some(i) => Some(&self.entries[i].1),
            None => None,
        }
    }

    /// The key at position `i`.
    pub fn key_at(&self, i: usize) -> (r: &Vec<u8>)
        requires
            i < self.pairs().len(),
        ensures
            r@ == self.pairs()[i as int].0,
    {
        &self.entries[i].0
    }

    /// The value at position `i`.
    pub fn value_at(&self, i: usize) -> (r: &V)
        requires
            i < self.pairs().len(),
        ensures
            r.model() == self.pairs()[i as int].1,
    {
        &self.entries[i].1
    }

    /// Put `value` at `key`, in place of what was there.
    pub fn insert(&mut self, key: Vec<u8>, value: V)
        requires
            old(self).wf(),
        ensures
            final(self).wf(),
            final(self)@ == old(self)@.insert(key@, value.model()),
            final(self).pairs().len() <= old(self).pairs().len() + 1,
            final(self).pairs().len() >= old(self).pairs().len(),
    {
        let i: usize = self.lower_bound(key.as_slice());
        let ghost p = self.pairs();
        let ghost kv = (key@, value.model());
        let ghost pair = (key, value);
        if i < self.entries.len() && bytes_eq(self.entries[i].0.as_slice(), key.as_slice()) {
            self.entries[i] = (key, value);
            let ghost q = self.pairs();
            proof {
                assert(p[i as int].0 == kv.0);
                assert(q =~= p.update(i as int, kv));
                assert forall|a: int, b: int| 0 <= a < b < q.len() implies lex_lt(
                    #[trigger] q[a].0,
                    #[trigger] q[b].0,
                ) by {
                    assert(q[a].0 == p[a].0 && q[b].0 == p[b].0);
                }
                lemma_assoc_update(p, i as int, kv.1);
            }
        } else {
            self.entries.insert(i, (key, value));
            let ghost q = self.pairs();
            proof {
                lemma_lex_order();
                lemma_lex_total_all(p, kv.0, i as int);
                assert(q =~= p.insert(i as int, kv));
                assert forall|a: int, b: int| 0 <= a < b < q.len() implies lex_lt(
                    #[trigger] q[a].0,
                    #[trigger] q[b].0,
                ) by {
                    if a == i {
                        assert(q[b] == p[b - 1]);
                    } else if b == i {
                        assert(q[a] == p[a]);
                    } else {
                        let a1 = if a < i { a } else { a - 1 };
                        let b1 = if b < i { b } else { b - 1 };
                        assert(q[a] == p[a1] && q[b] == p[b1]);
                    }
                }
                lemma_assoc_insert(p, i as int, kv);
            }
        }
    }

    /// Put `value` at `key`, which comes after every key that is present.
    pub fn push_last(&mut self, key: Vec<u8>, value: V)
        requires
            old(self).wf(),
            forall|i: int|
                0 <= i < old(self).pairs().len() ==> lex_lt(
                    #[trigger] old(self).pairs()[i].0,
                    key@,
                ),
        ensures
            final(self).wf(),
            final(self).pairs() == old(self).pairs().push((key@, value.model())),
    {
        let ghost p = self.pairs();
        let ghost kv = (key@, value.model());
        self.entries.push((key, value));
        assert(self.pairs() =~= p.push(kv));
    }

    /// The pairs themselves, in ascending key order.
    pub fn into_entries(self) -> (r: Vec<(Vec<u8>, V)>)
        ensures
            pairs(r@) == self.pairs(),
    {
        self.entries
    }
}

proof fn lemma_lex_total_all<A>(p: Seq<(Seq<u8>, A)>, k: Seq<u8>, i: int)
    requires
        keys_ascend(p),
        0 <= i <= p.len(),
        forall|j: int| i <= j < p.len() ==> !lex_lt(#[trigger] p[j].0, k),
        i < p.len() ==> p[i].0 != k,
    ensures
        forall|j: int| i <= j < p.len() ==> lex_lt(k, #[trigger] p[j].0),
{
    lemma_lex_order();
    assert forall|j: int| i <= j < p.len() implies lex_lt(k, #[trigger] p[j].0) by {
        lemma_lex_total(k, p[j].0);
        if p[j].0 == k {
            assert(lex_lt(p[i].0, p[j].0));
        }
    }
}

/// Changing the value of one pair of an ascending list changes the map there.
pub proof fn lemma_assoc_update<A>(p: Seq<(Seq<u8>, A)>, i: int, v: A)
    requires
        keys_ascend(p),
        0 <= i < p.len(),
    ensures
        assoc(p.update(i, (p[i].0, v))) == assoc(p).insert(p[i].0, v),
    decreases p.len(),
{
    let q = p.update(i, (p[i].0, v));
    if i == p.len() - 1 {
        assert(q.drop_last() =~= p.drop_last());
        assert(assoc(q) =~= assoc(p).insert(p[i].0, v));
    } else {
        lemma_assoc_update(p.drop_last(), i, v);
        assert(q.drop_last() =~= p.drop_last().update(i, (p[i].0, v)));
        lemma_lex_irreflexive(p[i].0);
        assert(lex_lt(p[i].0, p[p.len() - 1].0));
        assert(assoc(q) =~= assoc(p).insert(p[i].0, v));
    }
}

/// A pair with a new key may be put anywhere in a list.
pub proof fn lemma_assoc_insert<A>(p: Seq<(Seq<u8>, A)>, i: int, kv: (Seq<u8>, A))
    requires
        0 <= i <= p.len(),
        forall|j: int| i <= j < p.len() ==> #[trigger] p[j].0 != kv.0,
    ensures
        assoc(p.insert(i, kv)) == assoc(p).insert(kv.0, kv.1),
    decreases p.len(),
{
    let q = p.insert(i, kv);
    if i == p.len() {
        assert(q.drop_last() =~= p);
    } else {
        lemma_assoc_insert(p.drop_last(), i, kv);
        assert(q.drop_last() =~= p.drop_last().insert(i, kv));
        assert(q.last() == p.last());
        assert(p.last().0 == p[p.len() - 1].0);
        assert(assoc(q) =~= assoc(p).insert(kv.0, kv.1));
    }
}

/// A list stands for the map that gives each key what its last pair has, and has no other
/// keys.
pub proof fn law_last_pair_counts<K, A>(s: Seq<(K, A)>, k: K, i: int)
    requires
        -1 <= i < s.len(),
        i >= 0 ==> s[i].0 == k,
        forall|j: int| i < j < s.len() ==> (#[trigger] s[j]).0 != k,
    ensures
        assoc(s).contains_key(k) == (i >= 0),
        i >= 0 ==> assoc(s)[k] == s[i].1,
    decreases s.len(),
{
    if s.len() > 0 {
        let less = s.drop_last();
        if i < s.len() - 1 {
            assert(s[s.len() - 1].0 != k);
            assert forall|j: int| i < j < less.len() implies (#[trigger] less[j]).0 != k by {
                assert(less[j] == s[j]);
            }
            law_last_pair_counts(less, k, i);
        }
    }
}

/// The pairs of an executable list are its pairs, one by one.
pub proof fn law_pairs_one_by_one<V: Model>(v: Seq<(Vec<u8>, V)>, i: int)
    requires
        0 <= i < v.len(),
    ensures
        pairs(v).len() == v.len(),
        pairs(v)[i].0 == v[i].0@,
        pairs(v)[i].1 == v[i].1.model(),
{
}

} // verus!
