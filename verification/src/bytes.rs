//! Byte strings: their order, their prefixes and the integer encodings that
//! the file formats are made of.

use vstd::arithmetic::div_mod::lemma_div_denominator;
use vstd::arithmetic::power::{lemma_pow0, lemma_pow_positive, pow};
use vstd::prelude::*;
use vstd::slice::{slice_subrange, slice_to_vec};

verus! {

/// The mathematical value that a piece of executable data stands for.
pub trait Model {
    type M;

    spec fn model(&self) -> Self::M;
}

impl Model for Vec<u8> {
    type M = Seq<u8>;

    open spec fn model(&self) -> Seq<u8> {
        self@
    }
}

impl Model for Option<Vec<u8>> {
    type M = Option<Seq<u8>>;

    open spec fn model(&self) -> Option<Seq<u8>> {
        match *self {
            Some(v) => Some(v@),
            None => None,
        }
    }
}

impl Model for u64 {
    type M = u64;

    open spec fn model(&self) -> u64 {
        *self
    }
}

// ---- order -----------------------------------------------------------------

/// `a` comes strictly before `b`: bytes are compared from the front, and a
/// proper prefix comes before what it is a prefix of.
pub open spec fn lex_lt(a: Seq<u8>, b: Seq<u8>) -> bool
    decreases a.len(),
{
    if b.len() == 0 {
        false
    } else if a.len() == 0 {
        true
    } else if a[0] != b[0] {
        a[0] < b[0]
    } else {
        lex_lt(a.drop_first(), b.drop_first())
    }
}

/// No byte string comes before itself.
pub proof fn lemma_lex_irreflexive(a: Seq<u8>)
    ensures
        !lex_lt(a, a),
    decreases a.len(),
{
    if a.len() > 0 {
        lemma_lex_irreflexive(a.drop_first());
    }
}

/// The order on byte strings is transitive.
pub proof fn lemma_lex_transitive(a: Seq<u8>, b: Seq<u8>, c: Seq<u8>)
    requires
        lex_lt(a, b),
        lex_lt(b, c),
    ensures
        lex_lt(a, c),
    decreases a.len(),
{
    if a.len() > 0 && a[0] == b[0] && b[0] == c[0] {
        lemma_lex_transitive(a.drop_first(), b.drop_first(), c.drop_first());
    }
}

/// Of two byte strings one comes before the other, unless they are the same.
pub proof fn lemma_lex_total(a: Seq<u8>, b: Seq<u8>)
    ensures
        lex_lt(a, b) || a == b || lex_lt(b, a),
    decreases a.len(),
{
    if a.len() > 0 && b.len() > 0 && a[0] == b[0] {
        lemma_lex_total(a.drop_first(), b.drop_first());
        if a.drop_first() == b.drop_first() {
            assert(a =~= seq![a[0]] + a.drop_first());
            assert(b =~= seq![b[0]] + b.drop_first());
        }
    } else if a.len() == 0 && b.len() == 0 {
        assert(a =~= b);
    }
}

/// The order is irreflexive and transitive for every choice of byte strings.
pub proof fn lemma_lex_order()
    ensures
        forall|a: Seq<u8>| !#[trigger] lex_lt(a, a),
        forall|a: Seq<u8>, b: Seq<u8>, c: Seq<u8>| #[trigger]
            lex_lt(a, b) && #[trigger] lex_lt(b, c) ==> lex_lt(a, c),
{
    assert forall|a: Seq<u8>| !#[trigger] lex_lt(a, a) by {
        lemma_lex_irreflexive(a);
    }
    assert forall|a: Seq<u8>, b: Seq<u8>, c: Seq<u8>| #[trigger]
        lex_lt(a, b) && #[trigger] lex_lt(b, c) implies lex_lt(a, c) by {
        lemma_lex_transitive(a, b, c);
    }
}

/// Whether `a` comes strictly before `b`.
pub fn bytes_lt(a: &[u8], b: &[u8]) -> (r: bool)
    ensures
        r == lex_lt(a@, b@),
{
    let mut i: usize = 0;
    assert(a@.skip(0) =~= a@);
    assert(b@.skip(0) =~= b@);
    while i < a.len() && i < b.len() && a[i] == b[i]
        invariant
            i <= a.len(),
            i <= b.len(),
            lex_lt(a@, b@) == lex_lt(a@.skip(i as int), b@.skip(i as int)),
        decreases a.len() - i,
    {
        assert(a@.skip(i as int).drop_first() =~= a@.skip(i + 1));
        assert(b@.skip(i as int).drop_first() =~= b@.skip(i + 1));
        i = i + 1;
    }
    if i == b.len() {
        false
    } else if i == a.len() {
        true
    } else {
        a[i] < b[i]
    }
}

/// Whether two byte strings hold the same bytes.
pub fn bytes_eq(a: &[u8], b: &[u8]) -> (r: bool)
    ensures
        r == (a@ == b@),
{
    if a.len() != b.len() {
        return false;
    }
    let mut i: usize = 0;
    while i < a.len()
        invariant
            i <= a.len(),
            a.len() == b.len(),
            forall|j: int| 0 <= j < i ==> a@[j] == b@[j],
        decreases a.len() - i,
    {
        if a[i] != b[i] {
            return false;
        }
        i = i + 1;
    }
    assert(a@ =~= b@);
    true
}

// ---- prefixes and copies -----------------------------------------------------

/// `s` starts with `p`.
pub open spec fn has_prefix(s: Seq<u8>, p: Seq<u8>) -> bool {
    &&& p.len() <= s.len()
    &&& s.subrange(0, p.len() as int) == p
}

/// Whether `s` starts with `p`.
pub fn starts_with(s: &[u8], p: &[u8]) -> (r: bool)
    ensures
        r == has_prefix(s@, p@),
{
    if p.len() > s.len() {
        return false;
    }
    bytes_eq(slice_subrange(s, 0, p.len()), p)
}

/// A fresh copy of `s`.
pub fn copy_bytes(s: &[u8]) -> (r: Vec<u8>)
    ensures
        r@ == s@,
{
    slice_to_vec(s)
}

/// A fresh copy of an optional byte string.
pub fn copy_value(v: &Option<Vec<u8>>) -> (r: Option<Vec<u8>>)
    ensures
        r.model() == v.model(),
{
    match v {
        Some(b) => Some(copy_bytes(b.as_slice())),
        None => None,
    }
}

/// Append the bytes of `s` to `out`.
pub fn put_bytes(out: &mut Vec<u8>, s: &[u8])
    ensures
        final(out)@ == old(out)@ + s@,
{
    out.extend_from_slice(s);
    assert(out@ =~= old(out)@ + s@);
}

// ---- integer encodings -------------------------------------------------------

/// `256` to the power `n`.
pub open spec fn pow256(n: nat) -> nat
    decreases n,
{
    if n == 0 {
        1
    } else {
        256 * pow256((n - 1) as nat)
    }
}

/// The low `n` bytes of `x`, the least significant byte first.
pub open spec fn le_bytes(x: nat, n: nat) -> Seq<u8>
    decreases n,
{
    if n == 0 {
        Seq::empty()
    } else {
        seq![(x % 256) as u8] + le_bytes(x / 256, (n - 1) as nat)
    }
}

/// The number that `s` encodes, the least significant byte first.
pub open spec fn le_value(s: Seq<u8>) -> nat
    decreases s.len(),
{
    if s.len() == 0 {
        0
    } else {
        s[0] as nat + 256 * le_value(s.drop_first())
    }
}

/// The low `n` bytes of `x`, the most significant byte first.
pub open spec fn be_bytes(x: nat, n: nat) -> Seq<u8>
    decreases n,
{
    if n == 0 {
        Seq::empty()
    } else {
        be_bytes(x / 256, (n - 1) as nat).push((x % 256) as u8)
    }
}

/// The number that `s` encodes, the most significant byte first.
pub open spec fn be_value(s: Seq<u8>) -> nat
    decreases s.len(),
{
    if s.len() == 0 {
        0
    } else {
        256 * be_value(s.drop_last()) + s.last() as nat
    }
}

/// Decoding what was encoded gives the number back, where it fits.
pub proof fn lemma_le_round_trip(x: nat, n: nat)
    ensures
        le_bytes(x, n).len() == n,
        x < pow256(n) ==> le_value(le_bytes(x, n)) == x,
    decreases n,
{
    if n > 0 {
        lemma_le_round_trip(x / 256, (n - 1) as nat);
        let s = le_bytes(x, n);
        assert(s.drop_first() =~= le_bytes(x / 256, (n - 1) as nat));
    }
}

/// Decoding what was encoded gives the number back, where it fits.
pub proof fn lemma_be_round_trip(x: nat, n: nat)
    ensures
        be_bytes(x, n).len() == n,
        x < pow256(n) ==> be_value(be_bytes(x, n)) == x,
    decreases n,
{
    if n > 0 {
        lemma_be_round_trip(x / 256, (n - 1) as nat);
        let s = be_bytes(x, n);
        assert(s.drop_last() =~= be_bytes(x / 256, (n - 1) as nat));
    }
}

/// Encoding what was decoded gives the bytes back.
pub proof fn lemma_le_value_round_trip(s: Seq<u8>)
    ensures
        le_bytes(le_value(s), s.len()) == s,
        le_value(s) < pow256(s.len()),
    decreases s.len(),
{
    if s.len() > 0 {
        lemma_le_value_round_trip(s.drop_first());
        let x = le_value(s);
        assert(x / 256 == le_value(s.drop_first()) && x % 256 == s[0]);
        assert(s =~= seq![s[0]] + s.drop_first());
    } else {
        assert(s =~= Seq::<u8>::empty());
    }
}

/// Encoding what was decoded gives the bytes back.
pub proof fn lemma_be_value_round_trip(s: Seq<u8>)
    ensures
        be_bytes(be_value(s), s.len()) == s,
        be_value(s) < pow256(s.len()),
    decreases s.len(),
{
    if s.len() > 0 {
        lemma_be_value_round_trip(s.drop_last());
        let x = be_value(s);
        assert(x / 256 == be_value(s.drop_last()) && x % 256 == s.last());
        assert(s =~= s.drop_last().push(s.last()));
    } else {
        assert(s =~= Seq::<u8>::empty());
    }
}

/// The powers of 256 that the formats use.
pub proof fn lemma_pow256_values()
    ensures
        pow256(1) == 256,
        pow256(2) == 0x1_0000,
        pow256(4) == 0x1_0000_0000,
        pow256(8) == 0x1_0000_0000_0000_0000,
{
    reveal_with_fuel(pow256, 9);
}

proof fn lemma_pow256_monotone(m: nat, n: nat)
    requires
        m <= n,
    ensures
        pow256(m) <= pow256(n),
        pow256(m) >= 1,
    decreases n,
{
    if n > 0 {
        if m < n {
            lemma_pow256_monotone(m, (n - 1) as nat);
        } else {
            lemma_pow256_monotone((m - 1) as nat, (n - 1) as nat);
        }
    }
}

/// The bytes depend on no more of the number than they can hold.
pub proof fn lemma_be_truncates(x: nat, n: nat)
    ensures
        be_bytes(x % pow256(n), n) == be_bytes(x, n),
    decreases n,
{
    lemma_pow256_monotone(0, n);
    if n > 0 {
        let m = pow256((n - 1) as nat);
        lemma_pow256_monotone(0, (n - 1) as nat);
        assert((x % (256 * m)) % 256 == x % 256 && (x % (256 * m)) / 256 == (x / 256) % m)
            by (nonlinear_arith)
            requires
                m > 0,
        {
            let q = x / 256;
            let r = x % 256;
            let t = q / m;
            let u = q % m;
            assert(x == 256 * q + r && q == m * t + u);
            assert(x == (256 * m) * t + (256 * u + r));
            assert(0 <= 256 * u + r < 256 * m);
            vstd::arithmetic::div_mod::lemma_fundamental_div_mod_converse(
                x as int,
                (256 * m) as int,
                t as int,
                (256 * u + r) as int,
            );
            assert(x % (256 * m) == 256 * u + r);
        }
        lemma_be_truncates(x / 256, (n - 1) as nat);
    }
}

/// Append the low `n` bytes of `x`, the least significant first.
pub fn put_le(out: &mut Vec<u8>, x: u64, n: usize)
    ensures
        final(out)@ == old(out)@ + le_bytes(x as nat, n as nat),
{
    let ghost start = out@;
    let mut rest: u64 = x;
    let mut i: usize = 0;
    assert(start + le_bytes(x as nat, n as nat) =~= out@ + le_bytes(rest as nat, (n - i) as nat));
    while i < n
        invariant
            i <= n,
            start + le_bytes(x as nat, n as nat) == out@ + le_bytes(rest as nat, (n - i) as nat),
        decreases n - i,
    {
        let ghost before = out@;
        let ghost left = le_bytes(rest as nat, (n - i) as nat);
        out.push((rest % 256) as u8);
        rest = rest / 256;
        i = i + 1;
        assert(before + left =~= out@ + le_bytes(rest as nat, (n - i) as nat));
    }
    assert(out@ + Seq::<u8>::empty() =~= out@);
}

/// Append `x` as four bytes, the most significant first.
pub fn put_u32_be(out: &mut Vec<u8>, x: u32)
    ensures
        final(out)@ == old(out)@ + be_bytes(x as nat, 4),
{
    out.push((x / 0x100_0000) as u8);
    out.push(((x / 0x1_0000) % 256) as u8);
    out.push(((x / 0x100) % 256) as u8);
    out.push((x % 256) as u8);
    proof {
        reveal_with_fuel(be_bytes, 5);
        assert(x / 0x100 == x as nat / 256);
        assert(x / 0x1_0000 == x as nat / 256 / 256);
        assert(x / 0x100_0000 == x as nat / 256 / 256 / 256);
        assert(out@ =~= old(out)@ + be_bytes(x as nat, 4));
    }
}

/// Read `n` bytes at `pos` as a number, the least significant byte first.
pub fn get_le(data: &[u8], pos: usize, n: usize) -> (x: u64)
    requires
        n <= 8,
        pos + n <= data@.len(),
    ensures
        x == le_value(data@.subrange(pos as int, pos + n)),
{
    let mut acc: u64 = 0;
    let mut i: usize = n;
    assert(data@.subrange(pos + n, pos + n) =~= Seq::<u8>::empty());
    while i > 0
        invariant
            i <= n,
            n <= 8,
            pos + n <= data.len(),
            acc == le_value(data@.subrange(pos + i, pos + n)),
        decreases i,
    {
        let ghost tail = data@.subrange(pos + i, pos + n);
        i = i - 1;
        let ghost whole = data@.subrange(pos + i, pos + n);
        proof {
            assert(whole.drop_first() =~= tail);
            lemma_le_value_round_trip(whole);
            lemma_pow256_monotone(whole.len(), 8);
            lemma_pow256_values();
        }
        acc = acc * 256 + data[pos + i] as u64;
    }
    acc
}

/// Read four bytes at `pos` as a number, the most significant byte first.
pub fn get_u32_be(data: &[u8], pos: usize) -> (x: u32)
    requires
        pos + 4 <= data@.len(),
    ensures
        x == be_value(data@.subrange(pos as int, pos + 4)),
{
    let x: u32 = data[pos] as u32 * 0x100_0000 + data[pos + 1] as u32 * 0x1_0000
        + data[pos + 2] as u32 * 0x100 + data[pos + 3] as u32;
    proof {
        let s = data@.subrange(pos as int, pos + 4);
        reveal_with_fuel(be_value, 5);
        assert(s.last() == data@[pos + 3]);
        assert(s.drop_last().last() == data@[pos + 2]);
        assert(s.drop_last().drop_last().last() == data@[pos + 1]);
        assert(s.drop_last().drop_last().drop_last().last() == data@[pos as int]);
        assert(s.drop_last().drop_last().drop_last().drop_last() =~= Seq::<u8>::empty());
    }
    x
}

/// Read `n` bytes at `pos` as a number, the most significant byte first.
pub fn get_be(data: &[u8], pos: usize, n: usize) -> (x: u64)
    requires
        n <= 8,
        pos + n <= data@.len(),
    ensures
        x == be_value(data@.subrange(pos as int, pos + n)),
{
    let mut acc: u64 = 0;
    let mut i: usize = 0;
    assert(data@.subrange(pos as int, pos as int) =~= Seq::<u8>::empty());
    while i < n
        invariant
            i <= n,
            n <= 8,
            pos + n <= data.len(),
            acc == be_value(data@.subrange(pos as int, pos + i)),
        decreases n - i,
    {
        proof {
            let whole = data@.subrange(pos as int, pos + i + 1);
            assert(whole.drop_last() =~= data@.subrange(pos as int, pos + i));
            lemma_be_value_round_trip(whole);
            lemma_pow256_monotone(whole.len(), 8);
            lemma_pow256_values();
        }
        acc = acc * 256 + data[pos + i] as u64;
        i = i + 1;
    }
    acc
}

// ---- laws ----------------------------------------------------------------------

/// Where two byte strings first differ decides which comes first: the one that ends
/// there, else the one with the smaller byte. Every pair of byte strings has such a
/// place.
pub proof fn law_order_by_first_difference(a: Seq<u8>, b: Seq<u8>, i: int)
    requires
        0 <= i <= a.len(),
        i <= b.len(),
        forall|j: int| 0 <= j < i ==> #[trigger] a[j] == b[j],
        i < a.len() && i < b.len() ==> a[i] != b[i],
    ensures
        lex_lt(a, b) == (i < b.len() && (i == a.len() || a[i] < b[i])),
    decreases i,
{
    if i > 0 {
        let x = a.drop_first();
        let y = b.drop_first();
        assert(a[0] == b[0]);
        assert forall|j: int| 0 <= j < i - 1 implies #[trigger] x[j] == y[j] by {
            assert(a[j + 1] == b[j + 1]);
        }
        law_order_by_first_difference(x, y, i - 1);
    }
}

/// A byte string starts with `p` if and only if it is `p` and what follows it.
pub proof fn law_prefix_and_rest(s: Seq<u8>, p: Seq<u8>, t: Seq<u8>)
    ensures
        has_prefix(p + t, p),
        has_prefix(s, p) ==> p.len() <= s.len() && s == p + s.skip(p.len() as int),
{
    assert((p + t).subrange(0, p.len() as int) =~= p);
    if has_prefix(s, p) {
        assert forall|i: int| 0 <= i < p.len() implies s[i] == p[i] by {
            assert(s.subrange(0, p.len() as int)[i] == p[i]);
        }
        assert(s =~= p + s.skip(p.len() as int));
    }
}

/// The bytes that a number is written as are its digits to the base 256: the least
/// significant first, or last.
pub proof fn law_bytes_are_digits(x: nat, n: nat, i: int)
    requires
        0 <= i < n,
    ensures
        le_bytes(x, n).len() == n,
        be_bytes(x, n).len() == n,
        le_bytes(x, n)[i] == (x as int / pow(256, i as nat)) % 256,
        be_bytes(x, n)[n - 1 - i] == (x as int / pow(256, i as nat)) % 256,
    decreases n,
{
    lemma_le_round_trip(x, n);
    lemma_be_round_trip(x, n);
    if i == 0 {
        lemma_pow0(256);
    } else {
        law_bytes_are_digits(x / 256, (n - 1) as nat, i - 1);
        lemma_le_round_trip(x / 256, (n - 1) as nat);
        lemma_be_round_trip(x / 256, (n - 1) as nat);
        lemma_pow_positive(256, (i - 1) as nat);
        assert(pow(256, i as nat) == 256 * pow(256, (i - 1) as nat)) by {
            reveal(pow);
        }
        lemma_div_denominator(x as int, 256, pow(256, (i - 1) as nat));
        assert(le_bytes(x, n)[i] == le_bytes(x / 256, (n - 1) as nat)[i - 1]);
        assert(be_bytes(x, n)[n - 1 - i] == be_bytes(x / 256, (n - 1) as nat)[n - 2 - (i - 1)]);
    }
}

/// A byte counts for as much as its place says, from the front or from the back.
pub proof fn law_bytes_count_by_place(s: Seq<u8>, b: u8)
    ensures
        le_value(s.push(b)) == le_value(s) + b * pow(256, s.len()),
        be_value(seq![b] + s) == be_value(s) + b * pow(256, s.len()),
        le_value(Seq::<u8>::empty()) == 0,
        be_value(Seq::<u8>::empty()) == 0,
    decreases s.len(),
{
    let one = seq![b] + s;
    if s.len() == 0 {
        lemma_pow0(256);
        assert(s.push(b).drop_first() =~= s);
        assert(one.drop_last() =~= s);
        assert(le_value(s) == 0);
        assert(le_value(s.push(b)) == b as nat + 256 * le_value(s));
        assert(be_value(one) == 256 * be_value(s) + b as nat);
    } else {
        let n = s.len();
        let p = pow(256, (n - 1) as nat);
        assert(pow(256, n) == 256 * p) by {
            reveal(pow);
        }
        law_bytes_count_by_place(s.drop_first(), b);
        law_bytes_count_by_place(s.drop_last(), b);
        assert(s.push(b).drop_first() =~= s.drop_first().push(b));
        assert(one.drop_last() =~= seq![b] + s.drop_last());
        assert(256 * (b * p) == b * (256 * p)) by (nonlinear_arith);
    }
}

} // verus!
