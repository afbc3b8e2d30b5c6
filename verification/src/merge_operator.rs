//! Operators that fold increments of a value into it.

use crate::bytes::{copy_bytes, get_le, le_bytes, le_value, lemma_le_round_trip,
    lemma_le_value_round_trip, lemma_pow256_values, put_bytes, put_le, Model};
use vstd::prelude::*;

verus! {

/// An increment of a value that waits to be folded into it.
#[derive(Debug, Clone)]
pub struct MergeDelta {
    pub key: Vec<u8>,
    pub seq: u64,
    pub delta: Vec<u8>,
}

/// Increments as mathematical values.
pub open spec fn delta_views(v: Seq<Vec<u8>>) -> Seq<Seq<u8>> {
    v.map_values(|d: Vec<u8>| d@)
}

/// A value that may be absent, as a mathematical value.
pub open spec fn base_view(base: Option<&[u8]>) -> Option<Seq<u8>> {
    match base {
        Some(b) => Some(b@),
        None => None,
    }
}

/// An operator that users of the library may define.
pub trait MergeOperator: Send + Sync {
    /// What a value becomes by a list of increments, the oldest first.
    spec fn folded(&self, key: Seq<u8>, base: Option<Seq<u8>>, deltas: Seq<Seq<u8>>) -> Option<
        Seq<u8>,
    >;

    /// Fold increments, the oldest first, into a value or into nothing.
    fn full_merge(&self, key: &[u8], base: Option<&[u8]>, deltas: &[Vec<u8>]) -> (r: Option<
        Vec<u8>,
    >)
        ensures
            r.model() == self.folded(key@, base_view(base), delta_views(deltas@)),
    ;

    /// Make one increment of two adjacent ones, if that is supported. The one may stand
    /// for the two in every list that is folded. Of an empty first increment nothing is
    /// promised: an operator may leave it out of a value that is still empty.
    fn partial_merge(&self, key: &[u8], left: &[u8], right: &[u8]) -> (r: Option<Vec<u8>>)
        ensures
            r matches Some(one) ==> left@.len() > 0 ==> forall|
                base: Option<Seq<u8>>,
                before: Seq<Seq<u8>>,
                after: Seq<Seq<u8>>,
            |
                #![trigger self.folded(key@, base, before.push(left@).push(right@) + after)]
                self.folded(key@, base, before.push(left@).push(right@) + after) == self.folded(
                    key@,
                    base,
                    before.push(one@) + after,
                ),
        default_ensures
            r is None,
    {
        None
    }

    /// The name of the operator.
    fn name(&self) -> (r: &str)
        default_ensures
            r@ == "unnamed_operator"@,
    {
        "unnamed_operator"
    }
}

// ---- counters ------------------------------------------------------------------

/// A counter: values and increments are signed 64-bit numbers as eight bytes, the
/// least significant first.
pub struct Int64AddOperator;

/// The signed number that eight bytes encode; other bytes count as 0.
pub open spec fn signed(b: Seq<u8>) -> int {
    if b.len() != 8 {
        0
    } else if le_value(b) < 0x8000_0000_0000_0000 {
        le_value(b) as int
    } else {
        le_value(b) - 0x1_0000_0000_0000_0000
    }
}

/// The eight bytes that encode a number, which wraps around where it is too large.
pub open spec fn counter_bytes(x: int) -> Seq<u8> {
    le_bytes((x % 0x1_0000_0000_0000_0000) as nat, 8)
}

/// The sum of increments.
pub open spec fn delta_sum(deltas: Seq<Seq<u8>>) -> int
    decreases deltas.len(),
{
    if deltas.len() == 0 {
        0
    } else {
        delta_sum(deltas.drop_last()) + signed(deltas.last())
    }
}

/// The value that a counter starts from.
pub open spec fn counter_base(base: Option<Seq<u8>>) -> int {
    match base {
        Some(b) => signed(b),
        None => 0,
    }
}

/// The eight bytes of a number modulo 2^64, or 0 where there are not eight.
fn read_counter(b: &[u8]) -> (r: u64)
    ensures
        r == signed(b@) % 0x1_0000_0000_0000_0000,
{
    if b.len() != 8 {
        return 0;
    }
    assert(b@.subrange(0, 8) =~= b@);
    get_le(b, 0, 8)
}

fn write_counter(x: u64) -> (r: Vec<u8>)
    ensures
        r@ == le_bytes(x as nat, 8),
{
    let mut r: Vec<u8> = Vec::new();
    put_le(&mut r, x, 8);
    assert(r@ =~= le_bytes(x as nat, 8));
    r
}

/// Adding and wrapping around can be done in either order.
proof fn lemma_wrap(a: int, b: int)
    ensures
        ((a % 0x1_0000_0000_0000_0000) + (b % 0x1_0000_0000_0000_0000)) % 0x1_0000_0000_0000_0000
            == (a + b) % 0x1_0000_0000_0000_0000,
{
    vstd::arithmetic::div_mod::lemma_add_mod_noop(a, b, 0x1_0000_0000_0000_0000);
}

impl MergeOperator for Int64AddOperator {
    open spec fn folded(
        &self,
        key: Seq<u8>,
        base: Option<Seq<u8>>,
        deltas: Seq<Seq<u8>>,
    ) -> Option<Seq<u8>> {
        Some(counter_bytes(counter_base(base) + delta_sum(deltas)))
    }

    fn full_merge(&self, key: &[u8], base: Option<&[u8]>, deltas: &[Vec<u8>]) -> (r: Option<
        Vec<u8>,
    >) {
        let ghost start = counter_base(base_view(base));
        let ghost ds = delta_views(deltas@);
        let mut acc: u64 = match base {
            Some(b) => read_counter(b),
            None => 0,
        };
        let mut i: usize = 0;
        assert(ds.take(0) =~= Seq::<Seq<u8>>::empty());
        while i < deltas.len()
            invariant
                i <= deltas@.len(),
                ds == delta_views(deltas@),
                acc == (start + delta_sum(ds.take(i as int))) % 0x1_0000_0000_0000_0000,
            decreases deltas@.len() - i,
        {
            let d: u64 = read_counter(deltas[i].as_slice());
            proof {
                let t = ds.take(i + 1);
                assert(t.drop_last() =~= ds.take(i as int));
                assert(t.last() == ds[i as int]);
                lemma_wrap(start + delta_sum(ds.take(i as int)), signed(ds[i as int]));
            }
            acc = acc.wrapping_add(d);
            i = i + 1;
        }
        assert(ds.take(i as int) =~= ds);
        Some(write_counter(acc))
    }

    fn partial_merge(&self, key: &[u8], left: &[u8], right: &[u8]) -> (r: Option<Vec<u8>>)
        ensures
            match r {
                Some(v) => left@.len() == 8 && right@.len() == 8 && v@ == counter_bytes(
                    signed(left@) + signed(right@),
                ),
                None => left@.len() != 8 || right@.len() != 8,
            },
    {
        if left.len() != 8 || right.len() != 8 {
            return None;
        }
        let l: u64 = read_counter(left);
        let r: u64 = read_counter(right);
        proof {
            lemma_wrap(signed(left@), signed(right@));
            let one = counter_bytes(signed(left@) + signed(right@));
            assert forall|base: Option<Seq<u8>>, before: Seq<Seq<u8>>, after: Seq<Seq<u8>>|
                #![trigger self.folded(key@, base, before.push(left@).push(right@) + after)]
                self.folded(key@, base, before.push(left@).push(right@) + after) == self.folded(
                key@,
                base,
                before.push(one) + after,
            ) by {
                law_counter_partial_merge(base, before, left@, right@, after);
            }
        }
        Some(write_counter(l.wrapping_add(r)))
    }

    fn name(&self) -> (r: &str)
        ensures
            r@ == "int64_add"@,
    {
        "int64_add"
    }
}

proof fn lemma_counter_bytes(x: int)
    ensures
        counter_bytes(x).len() == 8,
        signed(counter_bytes(x)) % 0x1_0000_0000_0000_0000 == x % 0x1_0000_0000_0000_0000,
{
    lemma_pow256_values();
    lemma_le_round_trip((x % 0x1_0000_0000_0000_0000) as nat, 8);
}

proof fn lemma_sum_push(ds: Seq<Seq<u8>>, d: Seq<u8>)
    ensures
        delta_sum(ds.push(d)) == delta_sum(ds) + signed(d),
{
    assert(ds.push(d).drop_last() =~= ds);
}

proof fn lemma_sum_concat(a: Seq<Seq<u8>>, b: Seq<Seq<u8>>)
    ensures
        delta_sum(a + b) == delta_sum(a) + delta_sum(b),
    decreases b.len(),
{
    if b.len() == 0 {
        assert(a + b =~= a);
    } else {
        lemma_sum_concat(a, b.drop_last());
        assert((a + b).drop_last() =~= a + b.drop_last());
    }
}

/// Making one increment of two adjacent ones changes no counter.
pub proof fn law_counter_partial_merge(
    base: Option<Seq<u8>>,
    before: Seq<Seq<u8>>,
    left: Seq<u8>,
    right: Seq<u8>,
    after: Seq<Seq<u8>>,
)
    ensures
        counter_bytes(counter_base(base) + delta_sum(before.push(left).push(right) + after))
            == counter_bytes(
            counter_base(base) + delta_sum(
                before.push(counter_bytes(signed(left) + signed(right))) + after,
            ),
        ),
{
    let one = counter_bytes(signed(left) + signed(right));
    let a = counter_base(base) + delta_sum(before) + delta_sum(after);
    lemma_sum_concat(before.push(left).push(right), after);
    lemma_sum_concat(before.push(one), after);
    lemma_sum_push(before.push(left), right);
    lemma_sum_push(before, left);
    lemma_sum_push(before, one);
    lemma_counter_bytes(signed(left) + signed(right));
    lemma_wrap(a, signed(left) + signed(right));
    lemma_wrap(a, signed(one));
}

/// The order of increments does not matter to a counter.
pub proof fn law_counter_commutes(before: Seq<Seq<u8>>, left: Seq<u8>, right: Seq<u8>)
    ensures
        delta_sum(before.push(left).push(right)) == delta_sum(before.push(right).push(left)),
{
    lemma_sum_push(before.push(left), right);
    lemma_sum_push(before, left);
    lemma_sum_push(before.push(right), left);
    lemma_sum_push(before, right);
}

/// Eight bytes that encode a signed number count as that number, and every other base or
/// increment counts as 0.
pub proof fn law_counter_reads_signed_numbers(x: i64, b: Seq<u8>)
    ensures
        signed(le_bytes((x as int % 0x1_0000_0000_0000_0000) as nat, 8)) == x,
        b.len() != 8 ==> signed(b) == 0,
        b.len() == 8 ==> le_bytes((signed(b) % 0x1_0000_0000_0000_0000) as nat, 8) == b,
{
    lemma_pow256_values();
    lemma_le_round_trip((x as int % 0x1_0000_0000_0000_0000) as nat, 8);
    if b.len() == 8 {
        lemma_le_value_round_trip(b);
    }
}

/// A counter is the sum of its base and one increment, wrapped around into the range of
/// signed 64-bit numbers; without increments it is its base.
pub proof fn law_counter_adds(op: &Int64AddOperator, key: Seq<u8>, x: i64, y: i64)
    ensures
        ({
            let b = le_bytes((x as int % 0x1_0000_0000_0000_0000) as nat, 8);
            let d = le_bytes((y as int % 0x1_0000_0000_0000_0000) as nat, 8);
            let sum = le_bytes(((x as int + y as int) % 0x1_0000_0000_0000_0000) as nat, 8);
            &&& op.folded(key, Some(b), Seq::empty()) == Some(b)
            &&& op.folded(key, Some(b), seq![d]) == Some(sum)
            &&& op.folded(key, None, seq![b, d]) == Some(sum)
            &&& op.folded(key, None, Seq::empty()) == Some(le_bytes(0, 8))
        }),
{
    let b = le_bytes((x as int % 0x1_0000_0000_0000_0000) as nat, 8);
    let d = le_bytes((y as int % 0x1_0000_0000_0000_0000) as nat, 8);
    let e = Seq::<Seq<u8>>::empty();
    law_counter_reads_signed_numbers(x, b);
    law_counter_reads_signed_numbers(y, d);
    assert(seq![d] =~= e.push(d));
    assert(seq![b, d] =~= e.push(b).push(d));
    lemma_sum_push(e, d);
    lemma_sum_push(e, b);
    lemma_sum_push(e.push(b), d);
}

/// The base of a counter counts like an increment in front of the others, and so one that
/// is absent counts like none.
pub proof fn law_counter_base_is_an_increment(
    op: &Int64AddOperator,
    key: Seq<u8>,
    b: Seq<u8>,
    deltas: Seq<Seq<u8>>,
)
    ensures
        op.folded(key, Some(b), deltas) == op.folded(key, None, seq![b] + deltas),
{
    lemma_sum_concat(seq![b], deltas);
    lemma_sum_push(Seq::empty(), b);
    assert(seq![b] =~= Seq::<Seq<u8>>::empty().push(b));
}

/// Folding some increments and then the others onto the result gives what folding all of
/// them at once gives.
pub proof fn law_counter_folds_in_parts(
    op: &Int64AddOperator,
    key: Seq<u8>,
    base: Option<Seq<u8>>,
    first: Seq<Seq<u8>>,
    second: Seq<Seq<u8>>,
)
    ensures
        op.folded(key, base, first) is Some,
        op.folded(key, base, first + second) == op.folded(
            key,
            op.folded(key, base, first),
            second,
        ),
{
    let x = counter_base(base) + delta_sum(first);
    lemma_sum_concat(first, second);
    lemma_counter_bytes(x);
    lemma_wrap(x, delta_sum(second));
    lemma_wrap(signed(counter_bytes(x)), delta_sum(second));
}

/// Two adjacent increments of a counter can be exchanged.
pub proof fn law_counter_increments_exchange(
    op: &Int64AddOperator,
    key: Seq<u8>,
    base: Option<Seq<u8>>,
    before: Seq<Seq<u8>>,
    left: Seq<u8>,
    right: Seq<u8>,
    after: Seq<Seq<u8>>,
)
    ensures
        op.folded(key, base, before.push(left).push(right) + after) == op.folded(
            key,
            base,
            before.push(right).push(left) + after,
        ),
{
    law_counter_commutes(before, left, right);
    lemma_sum_concat(before.push(left).push(right), after);
    lemma_sum_concat(before.push(right).push(left), after);
}

/// The key has no part in what a counter becomes.
pub proof fn law_counter_ignores_key(
    op: &Int64AddOperator,
    key: Seq<u8>,
    other: Seq<u8>,
    base: Option<Seq<u8>>,
    deltas: Seq<Seq<u8>>,
)
    ensures
        op.folded(key, base, deltas) == op.folded(other, base, deltas),
{
}

// ---- appending -----------------------------------------------------------------

/// Appends increments with a separator between them.
pub struct StringAppendOperator {
    pub separator: Vec<u8>,
}

/// A value with one more piece behind it, and the separator between them unless the
/// value is empty.
pub open spec fn appended(acc: Seq<u8>, separator: Seq<u8>, piece: Seq<u8>) -> Seq<u8> {
    if acc.len() == 0 {
        piece
    } else {
        acc + separator + piece
    }
}

/// A value with pieces behind it.
pub open spec fn joined(acc: Seq<u8>, separator: Seq<u8>, pieces: Seq<Seq<u8>>) -> Seq<u8>
    decreases pieces.len(),
{
    if pieces.len() == 0 {
        acc
    } else {
        appended(joined(acc, separator, pieces.drop_last()), separator, pieces.last())
    }
}

impl StringAppendOperator {
    /// An operator with the given separator.
    pub fn new(separator: Vec<u8>) -> (r: StringAppendOperator)
        ensures
            r.separator == separator,
    {
        StringAppendOperator { separator }
    }

    /// An operator with a comma between pieces.
    pub fn comma() -> (r: StringAppendOperator)
        ensures
            r.separator@ == seq![44u8],
    {
        let mut separator: Vec<u8> = Vec::new();
        separator.push(44);
        assert(separator@ =~= seq![44u8]);
        StringAppendOperator { separator }
    }
}

impl MergeOperator for StringAppendOperator {
    open spec fn folded(
        &self,
        key: Seq<u8>,
        base: Option<Seq<u8>>,
        deltas: Seq<Seq<u8>>,
    ) -> Option<Seq<u8>> {
        Some(
            joined(
                match base {
                    Some(b) => b,
                    None => Seq::empty(),
                },
                self.separator@,
                deltas,
            ),
        )
    }

    fn full_merge(&self, key: &[u8], base: Option<&[u8]>, deltas: &[Vec<u8>]) -> (r: Option<
        Vec<u8>,
    >) {
        let ghost ds = delta_views(deltas@);
        let mut out: Vec<u8> = match base {
            Some(b) => copy_bytes(b),
            None => Vec::new(),
        };
        let ghost start = out@;
        assert(start =~= (match base_view(base) {
            Some(b) => b,
            None => Seq::<u8>::empty(),
        }));
        let mut i: usize = 0;
        assert(ds.take(0) =~= Seq::<Seq<u8>>::empty());
        while i < deltas.len()
            invariant
                i <= deltas@.len(),
                ds == delta_views(deltas@),
                out@ == joined(start, self.separator@, ds.take(i as int)),
            decreases deltas@.len() - i,
        {
            let ghost acc = out@;
            proof {
                let t = ds.take(i + 1);
                assert(t.drop_last() =~= ds.take(i as int));
                assert(t.last() == ds[i as int]);
            }
            if out.len() > 0 {
                put_bytes(&mut out, self.separator.as_slice());
            }
            put_bytes(&mut out, deltas[i].as_slice());
            assert(out@ =~= appended(acc, self.separator@, ds[i as int]));
            i = i + 1;
        }
        assert(ds.take(i as int) =~= ds);
        Some(out)
    }

    fn partial_merge(&self, key: &[u8], left: &[u8], right: &[u8]) -> (r: Option<Vec<u8>>)
        ensures
            r matches Some(v) && v@ == left@ + self.separator@ + right@,
    {
        let mut out: Vec<u8> = copy_bytes(left);
        put_bytes(&mut out, self.separator.as_slice());
        put_bytes(&mut out, right);
        proof {
            let one = left@ + self.separator@ + right@;
            if left@.len() > 0 {
                assert forall|base: Option<Seq<u8>>, before: Seq<Seq<u8>>, after: Seq<Seq<u8>>|
                    #![trigger self.folded(key@, base, before.push(left@).push(right@) + after)]
                    self.folded(key@, base, before.push(left@).push(right@) + after)
                        == self.folded(key@, base, before.push(one) + after) by {
                    let acc = match base {
                        Some(b) => b,
                        None => Seq::<u8>::empty(),
                    };
                    law_append_partial_merge(acc, self.separator@, before, left@, right@, after);
                }
            }
        }
        Some(out)
    }

    fn name(&self) -> (r: &str)
        ensures
            r@ == "string_append"@,
    {
        "string_append"
    }
}

proof fn lemma_join_push(acc: Seq<u8>, separator: Seq<u8>, pieces: Seq<Seq<u8>>, piece: Seq<u8>)
    ensures
        joined(acc, separator, pieces.push(piece)) == appended(
            joined(acc, separator, pieces),
            separator,
            piece,
        ),
{
    assert(pieces.push(piece).drop_last() =~= pieces);
}

proof fn lemma_join_concat(acc: Seq<u8>, separator: Seq<u8>, a: Seq<Seq<u8>>, b: Seq<Seq<u8>>)
    ensures
        joined(acc, separator, a + b) == joined(joined(acc, separator, a), separator, b),
    decreases b.len(),
{
    if b.len() == 0 {
        assert(a + b =~= a);
    } else {
        lemma_join_concat(acc, separator, a, b.drop_last());
        assert((a + b).drop_last() =~= a + b.drop_last());
    }
}

/// Making one piece of two adjacent ones changes no appended value, unless the first
/// of the two is empty and there is nothing before it.
pub proof fn law_append_partial_merge(
    acc: Seq<u8>,
    separator: Seq<u8>,
    before: Seq<Seq<u8>>,
    left: Seq<u8>,
    right: Seq<u8>,
    after: Seq<Seq<u8>>,
)
    requires
        joined(acc, separator, before).len() > 0 || left.len() > 0,
    ensures
        joined(acc, separator, before.push(left).push(right) + after) == joined(
            acc,
            separator,
            before.push(left + separator + right) + after,
        ),
{
    let one = left + separator + right;
    lemma_join_concat(acc, separator, before.push(left).push(right), after);
    lemma_join_concat(acc, separator, before.push(one), after);
    lemma_join_push(acc, separator, before.push(left), right);
    lemma_join_push(acc, separator, before, left);
    lemma_join_push(acc, separator, before, one);
    let so_far = joined(acc, separator, before);
    assert(appended(appended(so_far, separator, left), separator, right) =~= appended(
        so_far,
        separator,
        one,
    ));
}

/// Without increments a value stays as it is, and a value that is absent or empty starts
/// with the first increment; else the separator and the increment come behind it.
pub proof fn law_append_puts_behind(
    op: &StringAppendOperator,
    key: Seq<u8>,
    b: Seq<u8>,
    d: Seq<u8>,
)
    ensures
        op.folded(key, Some(b), Seq::empty()) == Some(b),
        op.folded(key, None, Seq::empty()) == Some(Seq::<u8>::empty()),
        op.folded(key, None, seq![d]) == Some(d),
        b.len() == 0 ==> op.folded(key, Some(b), seq![d]) == Some(d),
        b.len() > 0 ==> op.folded(key, Some(b), seq![d]) == Some(b + op.separator@ + d),
{
    let e = Seq::<Seq<u8>>::empty();
    let nothing = Seq::<u8>::empty();
    assert(seq![d] =~= e.push(d));
    lemma_join_push(b, op.separator@, e, d);
    lemma_join_push(nothing, op.separator@, e, d);
}

/// Appending some increments and then the others behind the result gives what appending
/// all of them at once gives.
pub proof fn law_append_folds_in_parts(
    op: &StringAppendOperator,
    key: Seq<u8>,
    base: Option<Seq<u8>>,
    first: Seq<Seq<u8>>,
    second: Seq<Seq<u8>>,
)
    ensures
        op.folded(key, base, first) is Some,
        op.folded(key, base, first + second) == op.folded(
            key,
            op.folded(key, base, first),
            second,
        ),
{
    let acc = match base {
        Some(b) => b,
        None => Seq::<u8>::empty(),
    };
    lemma_join_concat(acc, op.separator@, first, second);
}

// ---- waiting increments ----------------------------------------------------------

/// The increments of one key that wait to be folded.
pub struct MergeState {
    pub deltas: Vec<MergeDelta>,
}

/// The increments that wait, without their keys and numbers.
pub open spec fn waiting(v: Seq<MergeDelta>) -> Seq<Seq<u8>> {
    v.map_values(|d: MergeDelta| d.delta@)
}

impl MergeState {
    /// Nothing waits.
    pub fn new() -> (r: MergeState)
        ensures
            r.deltas@.len() == 0,
    {
        MergeState { deltas: Vec::new() }
    }

    /// Add an increment behind the others.
    pub fn push(&mut self, delta: MergeDelta)
        ensures
            final(self).deltas@ == old(self).deltas@.push(delta),
    {
        self.deltas.push(delta);
    }

    /// What a value becomes by the increments that wait; the value itself if there
    /// are none.
    pub fn resolve<O: MergeOperator>(&self, key: &[u8], base: Option<&[u8]>, op: &O) -> (r: Option<
        Vec<u8>,
    >)
        ensures
            r.model() == (if self.deltas@.len() == 0 {
                base_view(base)
            } else {
                op.folded(key@, base_view(base), waiting(self.deltas@))
            }),
    {
        if self.deltas.len() == 0 {
            return match base {
                Some(b) => Some(copy_bytes(b)),
                None => None,
            };
        }
        let mut raw: Vec<Vec<u8>> = Vec::new();
        let mut i: usize = 0;
        while i < self.deltas.len()
            invariant
                i <= self.deltas@.len(),
                raw@.len() == i,
                forall|j: int| 0 <= j < i ==> (#[trigger] raw@[j])@ == self.deltas@[j].delta@,
            decreases self.deltas@.len() - i,
        {
            raw.push(copy_bytes(self.deltas[i].delta.as_slice()));
            i = i + 1;
        }
        assert(delta_views(raw@) =~= waiting(self.deltas@));
        op.full_merge(key, base, raw.as_slice())
    }
}

impl Default for MergeState {
    fn default() -> (r: MergeState)
        ensures
            r.deltas@.len() == 0,
    {
        MergeState::new()
    }
}

/// Increments as mathematical values are the increments, one by one; those that wait too.
pub proof fn law_increments_one_by_one(v: Seq<Vec<u8>>, w: Seq<MergeDelta>, base: Option<&[u8]>, i: int)
    ensures
        delta_views(v).len() == v.len(),
        waiting(w).len() == w.len(),
        0 <= i < v.len() ==> delta_views(v)[i] == v[i]@,
        0 <= i < w.len() ==> waiting(w)[i] == w[i].delta@,
        base_view(base) is Some == base is Some,
        base is Some ==> base_view(base)->0 == base->0@,
{
}

/// Resolving a key folds the increments that wait, in the order in which they were added,
/// into its value.
pub proof fn law_resolve_folds_what_waits<O: MergeOperator>(
    state: &MergeState,
    key: &[u8],
    base: Option<&[u8]>,
    op: &O,
    r: Option<Vec<u8>>,
    deltas: Seq<Seq<u8>>,
)
    requires
        call_ensures(MergeState::resolve::<O>, (state, key, base, op), r),
        deltas.len() == state.deltas@.len(),
        forall|i: int| 0 <= i < deltas.len() ==> deltas[i] == (#[trigger] state.deltas@[i]).delta@,
    ensures
        deltas.len() > 0 && base is Some ==> r.model() == op.folded(key@, Some(base->0@), deltas),
        deltas.len() > 0 && base is None ==> r.model() == op.folded(key@, None, deltas),
        deltas.len() == 0 ==> r is Some == base is Some,
        deltas.len() == 0 && base is Some ==> r->0@ == base->0@,
{
    assert(waiting(state.deltas@) =~= deltas);
}

} // verus!
