//! A probabilistic membership test, one per table file.
//!
//! A key is hashed twice, with FNV-1a and with a variant of djb2, and the two
//! are combined to `h1 + i * h2` for the probe `i`. A key of which some probed
//! bit is clear was never inserted.

use crate::bytes::{get_le, le_bytes, le_value, lemma_le_round_trip, lemma_pow256_values, put_le};
use vstd::prelude::*;

verus! {

/// The FNV-1a hash of `data`.
pub open spec fn fnv1a_of(data: Seq<u8>) -> u64
    decreases data.len(),
{
    if data.len() == 0 {
        14695981039346656037u64
    } else {
        (fnv1a_of(data.drop_last()) ^ (data.last() as u64)).wrapping_mul(1099511628211u64)
    }
}

/// The running value of the djb2 hash of `data`.
pub open spec fn djb2_run(data: Seq<u8>) -> u64
    decreases data.len(),
{
    if data.len() == 0 {
        5381u64
    } else {
        let h = djb2_run(data.drop_last());
        h.wrapping_shl(5).wrapping_add(h).wrapping_add(data.last() as u64)
    }
}

/// The djb2 hash of `data`, which is never zero.
pub open spec fn djb2_of(data: Seq<u8>) -> u64 {
    if djb2_run(data) == 0 {
        1
    } else {
        djb2_run(data)
    }
}

/// The hash of `key` for the probe `i`.
pub open spec fn probe(key: Seq<u8>, i: nat) -> u64 {
    fnv1a_of(key).wrapping_add((i as u64).wrapping_mul(djb2_of(key)))
}

/// The bit that the probe `i` for `key` looks at.
pub open spec fn probed_bit(key: Seq<u8>, i: nat, num_bits: nat) -> nat {
    (probe(key, i) as usize) as nat % num_bits
}

/// Bit `j` is set in an array of 64-bit words.
pub open spec fn has_bit(words: Seq<u64>, j: nat) -> bool {
    words[(j / 64) as int] & (1u64 << ((j % 64) as u64)) != 0
}

/// How many bits a filter for `capacity` keys has: 9.585 for each, which makes
/// one false positive in a hundred, and no fewer than 64.
pub open spec fn bits_for(capacity: nat) -> nat {
    if capacity * 9585 / 1000 < 64 {
        64
    } else {
        capacity * 9585 / 1000
    }
}

/// The bytes of an array of words, each of them little-endian.
pub open spec fn words_bytes(words: Seq<u64>) -> Seq<u8>
    decreases words.len(),
{
    if words.len() == 0 {
        Seq::empty()
    } else {
        words_bytes(words.drop_last()) + le_bytes(words.last() as nat, 8)
    }
}

/// The bytes of a filter.
pub open spec fn filter_bytes(num_bits: nat, num_hashes: nat, words: Seq<u64>) -> Seq<u8> {
    le_bytes(num_bits, 8) + le_bytes(num_hashes, 8) + words_bytes(words)
}

fn fnv1a(data: &[u8]) -> (h: u64)
    ensures
        h == fnv1a_of(data@),
{
    let mut h: u64 = 14695981039346656037;
    let mut i: usize = 0;
    assert(data@.take(0) =~= Seq::<u8>::empty());
    while i < data.len()
        invariant
            i <= data.len(),
            h == fnv1a_of(data@.take(i as int)),
        decreases data.len() - i,
    {
        assert(data@.take(i + 1).drop_last() =~= data@.take(i as int));
        h = (h ^ (data[i] as u64)).wrapping_mul(1099511628211);
        i = i + 1;
    }
    assert(data@.take(i as int) =~= data@);
    h
}

fn djb2(data: &[u8]) -> (h: u64)
    ensures
        h == djb2_of(data@),
{
    let mut h: u64 = 5381;
    let mut i: usize = 0;
    assert(data@.take(0) =~= Seq::<u8>::empty());
    while i < data.len()
        invariant
            i <= data.len(),
            h == djb2_run(data@.take(i as int)),
        decreases data.len() - i,
    {
        assert(data@.take(i + 1).drop_last() =~= data@.take(i as int));
        h = h.wrapping_shl(5).wrapping_add(h).wrapping_add(data[i] as u64);
        i = i + 1;
    }
    assert(data@.take(i as int) =~= data@);
    if h == 0 {
        1
    } else {
        h
    }
}

fn hashes(key: &[u8]) -> (h: (u64, u64))
    ensures
        h.0 == fnv1a_of(key@),
        h.1 == djb2_of(key@),
{
    (fnv1a(key), djb2(key))
}

proof fn lemma_set_bit(w: u64, a: u64, b: u64)
    requires
        a < 64,
        b < 64,
    ensures
        ((w | (1u64 << a)) & (1u64 << b) != 0) == (w & (1u64 << b) != 0 || a == b),
{
    assert(((w | (1u64 << a)) & (1u64 << b) != 0) == (w & (1u64 << b) != 0 || a == b))
        by (bit_vector)
        requires
            a < 64,
            b < 64,
    ;
}

proof fn lemma_no_bit(b: u64)
    ensures
        0u64 & (1u64 << b) == 0,
{
    assert(0u64 & (1u64 << b) == 0) by (bit_vector);
}

/// The filter of one table file.
pub struct BloomFilter {
    bits: Vec<u64>,
    num_bits: usize,
    num_hashes: usize,
}

impl BloomFilter {
    /// The bit array, in words of 64 bits.
    pub closed spec fn words(&self) -> Seq<u64> {
        self.bits@
    }

    /// How many bits there are.
    pub closed spec fn num_bits(&self) -> nat {
        self.num_bits as nat
    }

    /// How many bits each key probes.
    pub closed spec fn num_hashes(&self) -> nat {
        self.num_hashes as nat
    }

    /// There are bits to probe, and words for all of them.
    pub open spec fn wf(&self) -> bool {
        0 < self.num_bits() <= self.words().len() * 64
    }

    /// All the bits that `key` probes are set.
    pub open spec fn covers(&self, key: Seq<u8>) -> bool {
        forall|i: nat|
            i < self.num_hashes() ==> #[trigger] has_bit(
                self.words(),
                probed_bit(key, i, self.num_bits()),
            )
    }

    /// The filter as bytes.
    pub open spec fn bytes(&self) -> Seq<u8> {
        filter_bytes(self.num_bits(), self.num_hashes(), self.words())
    }

    /// Make an empty filter for `capacity` keys.
    pub fn new(capacity: usize) -> (r: BloomFilter)
        requires
            bits_for(capacity as nat) + 63 <= usize::MAX,
        ensures
            r.wf(),
            r.num_bits() == bits_for(capacity as nat),
            r.num_hashes() == 7,
            r.words().len() == (r.num_bits() + 63) / 64,
            forall|j: nat| j < r.words().len() * 64 ==> !#[trigger] has_bit(r.words(), j),
    {
        let scaled: u128 = capacity as u128 * 9585 / 1000;
        let num_bits: usize = if scaled < 64 {
            64
        } else {
            scaled as usize
        };
        let num_words: usize = (num_bits + 63) / 64;
        let mut bits: Vec<u64> = Vec::new();
        let mut i: usize = 0;
        while i < num_words
            invariant
                i <= num_words,
                bits@.len() == i,
                forall|j: int| 0 <= j < i ==> bits@[j] == 0,
            decreases num_words - i,
        {
            bits.push(0);
            i = i + 1;
        }
        let r: BloomFilter = BloomFilter { bits, num_bits, num_hashes: 7 };
        proof {
            assert forall|j: nat| j < r.words().len() * 64 implies !#[trigger] has_bit(
                r.words(),
                j,
            ) by {
                assert(r.words()[(j / 64) as int] == 0);
                lemma_no_bit((j % 64) as u64);
            }
        }
        r
    }

    /// Whether the filter can be probed.
    pub fn is_sound(&self) -> (r: bool)
        ensures
            r == self.wf(),
    {
        self.num_bits > 0 && self.bits.len() >= self.num_bits / 64 + (if self.num_bits % 64 == 0 {
            0
        } else {
            1
        })
    }

    /// Add a key: the bits that it probes are set, and no others.
    pub fn insert(&mut self, key: &[u8])
        requires
            old(self).wf(),
        ensures
            final(self).wf(),
            final(self).num_bits() == old(self).num_bits(),
            final(self).num_hashes() == old(self).num_hashes(),
            final(self).words().len() == old(self).words().len(),
            forall|j: nat|
                j < old(self).words().len() * 64 ==> (#[trigger] has_bit(final(self).words(), j)
                    <==> has_bit(old(self).words(), j) || exists|i: nat|
                    i < old(self).num_hashes() && #[trigger] probed_bit(
                        key@,
                        i,
                        old(self).num_bits(),
                    ) == j),
    {
        let (h1, h2): (u64, u64) = hashes(key);
        let ghost start = self.bits@;
        let ghost nb = self.num_bits as nat;
        let mut i: usize = 0;
        while i < self.num_hashes
            invariant
                i <= self.num_hashes,
                self.num_hashes == old(self).num_hashes,
                self.num_bits == old(self).num_bits,
                nb == self.num_bits,
                start == old(self).bits@,
                self.bits@.len() == start.len(),
                0 < self.num_bits <= self.bits@.len() * 64,
                h1 == fnv1a_of(key@),
                h2 == djb2_of(key@),
                forall|j: nat|
                    j < start.len() * 64 ==> (#[trigger] has_bit(self.bits@, j) <==> has_bit(start, j)
                        || exists|k: nat| k < i && #[trigger] probed_bit(key@, k, nb) == j),
            decreases self.num_hashes - i,
        {
            let idx: usize = h1.wrapping_add((i as u64).wrapping_mul(h2)) as usize % self.num_bits;
            let ghost before = self.bits@;
            let w: u64 = self.bits[idx / 64];
            self.bits.set(idx / 64, w | (1u64 << ((idx % 64) as u64)));
            proof {
                assert(idx as nat == probed_bit(key@, i as nat, nb));
                assert forall|j: nat| j < start.len() * 64 implies (#[trigger] has_bit(self.bits@, j)
                    <==> has_bit(start, j) || exists|k: nat|
                    k < i + 1 && #[trigger] probed_bit(key@, k, nb) == j) by {
                    assert(has_bit(before, j) <==> has_bit(start, j) || exists|k: nat|
                        k < i && #[trigger] probed_bit(key@, k, nb) == j);
                    lemma_set_bit(w, (idx % 64) as u64, (j % 64) as u64);
                    assert(has_bit(self.bits@, j) <==> has_bit(before, j) || j == idx);
                    if j == idx {
                        assert(probed_bit(key@, i as nat, nb) == j);
                    }
                    if exists|k: nat| k < i + 1 && #[trigger] probed_bit(key@, k, nb) == j {
                        let k = choose|k: nat|
                            k < i + 1 && #[trigger] probed_bit(key@, k, nb) == j;
                        if k < i {
                            assert(has_bit(before, j));
                        }
                    }
                }
            }
            i = i + 1;
        }
    }

    /// Whether `key` may have been inserted: `false` means that it was not.
    pub fn may_contain(&self, key: &[u8]) -> (r: bool)
        requires
            self.wf(),
        ensures
            r == self.covers(key@),
    {
        let (h1, h2): (u64, u64) = hashes(key);
        let mut i: usize = 0;
        while i < self.num_hashes
            invariant
                i <= self.num_hashes,
                0 < self.num_bits <= self.bits@.len() * 64,
                h1 == fnv1a_of(key@),
                h2 == djb2_of(key@),
                forall|k: nat|
                    k < i ==> #[trigger] has_bit(
                        self.bits@,
                        probed_bit(key@, k, self.num_bits as nat),
                    ),
            decreases self.num_hashes - i,
        {
            let idx: usize = h1.wrapping_add((i as u64).wrapping_mul(h2)) as usize % self.num_bits;
            assert(idx as nat == probed_bit(key@, i as nat, self.num_bits as nat));
            if self.bits[idx / 64] & (1u64 << ((idx % 64) as u64)) == 0 {
                assert(!has_bit(self.words(), probed_bit(key@, i as nat, self.num_bits())));
                return false;
            }
            assert(has_bit(self.bits@, probed_bit(key@, i as nat, self.num_bits as nat)));
            i = i + 1;
        }
        true
    }

    /// The filter as bytes.
    pub fn to_bytes(&self) -> (r: Vec<u8>)
        ensures
            r@ == self.bytes(),
    {
        let mut out: Vec<u8> = Vec::new();
        put_le(&mut out, self.num_bits as u64, 8);
        put_le(&mut out, self.num_hashes as u64, 8);
        let ghost head = out@;
        assert(head =~= le_bytes(self.num_bits(), 8) + le_bytes(self.num_hashes(), 8));
        let mut i: usize = 0;
        assert(self.bits@.take(0) =~= Seq::<u64>::empty());
        assert(head + Seq::<u8>::empty() =~= head);
        while i < self.bits.len()
            invariant
                i <= self.bits@.len(),
                out@ == head + words_bytes(self.bits@.take(i as int)),
            decreases self.bits@.len() - i,
        {
            let ghost before = out@;
            put_le(&mut out, self.bits[i], 8);
            proof {
                let t = self.bits@.take(i + 1);
                assert(t.drop_last() =~= self.bits@.take(i as int));
                assert(out@ =~= head + words_bytes(t));
            }
            i = i + 1;
        }
        assert(self.bits@.take(i as int) =~= self.bits@);
        out
    }

    /// Read a filter from its bytes. What is left over behind the last whole
    /// word is ignored.
    pub fn from_bytes(data: &[u8]) -> (r: BloomFilter)
        requires
            data@.len() >= 16,
        ensures
            r.num_bits() == (le_value(data@.subrange(0, 8)) as u64) as usize,
            r.num_hashes() == (le_value(data@.subrange(8, 16)) as u64) as usize,
            r.words().len() == (data@.len() - 16) / 8,
            forall|i: int|
                0 <= i < r.words().len() ==> #[trigger] r.words()[i] == le_value(
                    data@.subrange(16 + 8 * i, 24 + 8 * i),
                ),
    {
        let num_bits: usize = get_le(data, 0, 8) as usize;
        let num_hashes: usize = get_le(data, 8, 8) as usize;
        let n: usize = (data.len() - 16) / 8;
        let mut bits: Vec<u64> = Vec::new();
        let mut i: usize = 0;
        while i < n
            invariant
                i <= n,
                n == (data@.len() - 16) / 8,
                data@.len() >= 16,
                data@.len() <= usize::MAX,
                bits@.len() == i,
                forall|k: int|
                    0 <= k < i ==> #[trigger] bits@[k] == le_value(
                        data@.subrange(16 + 8 * k, 24 + 8 * k),
                    ),
            decreases n - i,
        {
            bits.push(get_le(data, 16 + 8 * i, 8));
            i = i + 1;
        }
        BloomFilter { bits, num_bits, num_hashes }
    }
}

proof fn lemma_words_bytes_len(words: Seq<u64>)
    ensures
        words_bytes(words).len() == 8 * words.len(),
    decreases words.len(),
{
    if words.len() > 0 {
        lemma_words_bytes_len(words.drop_last());
        lemma_le_round_trip(words.last() as nat, 8);
    }
}

proof fn lemma_words_bytes_index(words: Seq<u64>, i: int)
    requires
        0 <= i < words.len(),
    ensures
        8 * i + 8 <= words_bytes(words).len(),
        words_bytes(words).subrange(8 * i, 8 * i + 8) == le_bytes(words[i] as nat, 8),
    decreases words.len(),
{
    lemma_words_bytes_len(words);
    lemma_words_bytes_len(words.drop_last());
    lemma_le_round_trip(words.last() as nat, 8);
    if i == words.len() - 1 {
        assert(words_bytes(words).subrange(8 * i, 8 * i + 8) =~= le_bytes(words[i] as nat, 8));
    } else {
        lemma_words_bytes_index(words.drop_last(), i);
        assert(words_bytes(words).subrange(8 * i, 8 * i + 8) =~= words_bytes(
            words.drop_last(),
        ).subrange(8 * i, 8 * i + 8));
    }
}

/// The fields of a filter stand in its bytes.
pub proof fn lemma_filter_fields(a: &BloomFilter)
    ensures
        a.bytes().len() == 16 + 8 * a.words().len(),
        le_value(a.bytes().subrange(0, 8)) == a.num_bits(),
        le_value(a.bytes().subrange(8, 16)) == a.num_hashes(),
        a.num_bits() <= usize::MAX,
        a.num_hashes() <= usize::MAX,
        forall|i: int|
            0 <= i < a.words().len() ==> le_value(a.bytes().subrange(16 + 8 * i, 24 + 8 * i))
                == #[trigger] a.words()[i],
{
    let nb = le_bytes(a.num_bits(), 8);
    let nh = le_bytes(a.num_hashes(), 8);
    let ws = words_bytes(a.words());
    lemma_le_round_trip(a.num_bits(), 8);
    lemma_le_round_trip(a.num_hashes(), 8);
    lemma_words_bytes_len(a.words());
    lemma_pow256_values();
    assert(a.bytes() == nb + nh + ws);
    assert(a.bytes().subrange(0, 8) =~= nb);
    assert(a.bytes().subrange(8, 16) =~= nh);
    assert forall|i: int| 0 <= i < a.words().len() implies le_value(
        a.bytes().subrange(16 + 8 * i, 24 + 8 * i),
    ) == #[trigger] a.words()[i] by {
        lemma_words_bytes_index(a.words(), i);
        lemma_le_round_trip(a.words()[i] as nat, 8);
        assert(a.bytes().subrange(16 + 8 * i, 24 + 8 * i) =~= ws.subrange(8 * i, 8 * i + 8));
    }
}

/// A filter that was written and read again is the same filter.
pub proof fn law_filter_round_trip(a: &BloomFilter, b: &BloomFilter)
    requires
        b.num_bits() == (le_value(a.bytes().subrange(0, 8)) as u64) as usize,
        b.num_hashes() == (le_value(a.bytes().subrange(8, 16)) as u64) as usize,
        b.words().len() == (a.bytes().len() - 16) / 8,
        forall|i: int|
            0 <= i < b.words().len() ==> #[trigger] b.words()[i] == le_value(
                a.bytes().subrange(16 + 8 * i, 24 + 8 * i),
            ),
    ensures
        b.num_bits() == a.num_bits(),
        b.num_hashes() == a.num_hashes(),
        b.words() == a.words(),
{
    lemma_filter_fields(a);
    assert forall|i: int| 0 <= i < a.words().len() implies a.words()[i] == b.words()[i] by {
        let w = a.words()[i];
        assert(b.words()[i] == w);
    }
    assert(a.words() =~= b.words());
}

/// There are no false negatives: a key that is inserted is covered from then on,
/// whatever else is inserted. `before` and `after` are a filter before and after
/// `inserted` was put into it.
pub proof fn law_no_false_negatives(
    before: &BloomFilter,
    after: &BloomFilter,
    inserted: Seq<u8>,
    key: Seq<u8>,
)
    requires
        before.wf(),
        before.covers(key) || key == inserted,
        after.num_bits() == before.num_bits(),
        after.num_hashes() == before.num_hashes(),
        after.words().len() == before.words().len(),
        forall|j: nat|
            j < before.words().len() * 64 ==> (#[trigger] has_bit(after.words(), j) <==> has_bit(
                before.words(),
                j,
            ) || exists|i: nat|
                i < before.num_hashes() && #[trigger] probed_bit(inserted, i, before.num_bits())
                    == j),
    ensures
        after.covers(key),
        after.covers(inserted),
{
    assert forall|i: nat| i < after.num_hashes() implies #[trigger] has_bit(
        after.words(),
        probed_bit(key, i, after.num_bits()),
    ) by {
        let j = probed_bit(key, i, before.num_bits());
        assert(j < before.words().len() * 64);
        if key != inserted {
            assert(has_bit(before.words(), j));
        } else {
            assert(probed_bit(inserted, i, before.num_bits()) == j);
        }
    }
    assert forall|i: nat| i < after.num_hashes() implies #[trigger] has_bit(
        after.words(),
        probed_bit(inserted, i, after.num_bits()),
    ) by {
        let j = probed_bit(inserted, i, before.num_bits());
        assert(j < before.words().len() * 64);
    }
}

/// The first hash begins with the offset basis of FNV-1a; each byte is combined into it by
/// an exclusive or, and then it is multiplied by the prime, modulo 2^64.
pub proof fn law_first_hash_is_fnv1a(data: Seq<u8>, b: u8)
    ensures
        fnv1a_of(Seq::empty()) == 0xcbf2_9ce4_8422_2325,
        fnv1a_of(data.push(b)) as int == ((fnv1a_of(data) ^ (b as u64)) as int
            * 0x0000_0100_0000_01b3) % 0x1_0000_0000_0000_0000,
{
    assert(data.push(b).drop_last() =~= data);
}

/// The second hash begins with 5381; for each byte it is multiplied by 33 and the byte is
/// added, modulo 2^64. In place of 0 it is 1.
pub proof fn law_second_hash_is_djb2(data: Seq<u8>, b: u8)
    ensures
        djb2_run(Seq::empty()) == 5381,
        djb2_run(data.push(b)) as int == (33 * djb2_run(data) as int + b)
            % 0x1_0000_0000_0000_0000,
        djb2_run(data) != 0 ==> djb2_of(data) == djb2_run(data),
        djb2_run(data) == 0 ==> djb2_of(data) == 1,
{
    assert(data.push(b).drop_last() =~= data);
    let h = djb2_run(data);
    lemma_shl5(h);
}

proof fn lemma_shl5(h: u64)
    ensures
        h.wrapping_shl(5) as int == (32 * h as int) % 0x1_0000_0000_0000_0000,
{
    assert(h << 5u32 == ((h as u128 * 32) % 0x1_0000_0000_0000_0000) as u64) by (bit_vector);
}

/// A filter has at least 64 bits, and 9.585 for each key that it is made for.
pub proof fn law_filter_grows_with_its_keys(capacity: nat)
    ensures
        bits_for(capacity) >= 64,
        1000 * bits_for(capacity) + 1000 > 9585 * capacity,
        bits_for(capacity) > 64 ==> 1000 * bits_for(capacity) <= 9585 * capacity,
{
}

/// A probe looks at the bit that the first hash and so many times the second one, modulo
/// 2^64, lead to.
pub proof fn law_probe_combines_the_hashes(key: Seq<u8>, i: nat, num_bits: nat)
    requires
        i <= u64::MAX,
        num_bits > 0,
    ensures
        ({
            let h = (fnv1a_of(key) as int + i * djb2_of(key) as int) % 0x1_0000_0000_0000_0000;
            probed_bit(key, i, num_bits) as int == ((h as u64) as usize) as int % num_bits as int
        }),
{
    let x = fnv1a_of(key) as int;
    let y = i * djb2_of(key) as int;
    vstd::arithmetic::div_mod::lemma_add_mod_noop(x, y, 0x1_0000_0000_0000_0000);
}

/// Bits stand in words of 64, the least significant first.
pub proof fn law_bits_stand_in_words(words: Seq<u64>, word: int, bit: u64)
    requires
        0 <= word < words.len(),
        bit < 64,
    ensures
        has_bit(words, (64 * word + bit) as nat) == (words[word] & (1u64 << bit) != 0),
{
}

/// A key may be in a filter if and only if all the bits are set that it probes.
pub proof fn law_filter_is_asked_by_bits(f: &BloomFilter, key: &[u8], r: bool)
    requires
        call_ensures(BloomFilter::may_contain, (f, key), r),
    ensures
        r <==> forall|i: nat|
            i < f.num_hashes() ==> #[trigger] has_bit(
                f.words(),
                probed_bit(key@, i, f.num_bits()),
            ),
{
}

/// A new filter has no key in it.
pub proof fn law_new_filter_is_empty(capacity: usize, f: BloomFilter, key: &[u8], r: bool)
    requires
        call_ensures(BloomFilter::new, (capacity,), f),
        call_ensures(BloomFilter::may_contain, (&f, key), r),
    ensures
        !r,
{
    let j = probed_bit(key@, 0, f.num_bits());
    assert(j < f.words().len() * 64);
    assert(!has_bit(f.words(), j));
}

} // verus!
