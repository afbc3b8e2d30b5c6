//! Reading fields off the front of a byte string.

use crate::bytes::{be_bytes, be_value, get_le, get_u32_be, le_bytes, le_value, lemma_be_round_trip,
    lemma_be_truncates, lemma_be_value_round_trip, lemma_le_round_trip, lemma_le_value_round_trip,
    lemma_pow256_values, pow256, put_bytes, put_le, put_u32_be};
use vstd::prelude::*;
use vstd::slice::{slice_subrange, slice_to_vec};

verus! {

/// The first `n` bytes of `s` and what follows them, if there are that many.
pub open spec fn take_n(s: Seq<u8>, n: nat) -> Option<(Seq<u8>, Seq<u8>)> {
    if s.len() < n {
        None
    } else {
        Some((s.take(n as int), s.skip(n as int)))
    }
}

/// A byte string that its length precedes, as four big-endian bytes.
pub open spec fn take_lp_be(s: Seq<u8>) -> Option<(Seq<u8>, Seq<u8>)> {
    match take_n(s, 4) {
        Some((head, rest)) => take_n(rest, be_value(head)),
        None => None,
    }
}

/// A byte string that its length precedes, as `w` little-endian bytes.
pub open spec fn take_lp_le(s: Seq<u8>, w: nat) -> Option<(Seq<u8>, Seq<u8>)> {
    match take_n(s, w) {
        Some((head, rest)) => take_n(rest, le_value(head)),
        None => None,
    }
}

/// A number of `w` little-endian bytes.
pub open spec fn take_le(s: Seq<u8>, w: nat) -> Option<(nat, Seq<u8>)> {
    match take_n(s, w) {
        Some((head, rest)) => Some((le_value(head), rest)),
        None => None,
    }
}

/// A byte string behind its big-endian length.
pub open spec fn lp_be(b: Seq<u8>) -> Seq<u8> {
    be_bytes(b.len(), 4) + b
}

/// A byte string behind its little-endian length of `w` bytes.
pub open spec fn lp_le(b: Seq<u8>, w: nat) -> Seq<u8> {
    le_bytes(b.len(), w) + b
}

/// A field is read back as it was written, with what follows it left over.
pub proof fn lemma_take_n(b: Seq<u8>, rest: Seq<u8>)
    ensures
        take_n(b + rest, b.len()) == Some((b, rest)),
{
    assert((b + rest).take(b.len() as int) =~= b);
    assert((b + rest).skip(b.len() as int) =~= rest);
}

/// A length-prefixed field is read back as it was written.
pub proof fn lemma_take_lp_be(b: Seq<u8>, rest: Seq<u8>)
    requires
        b.len() < 0x1_0000_0000,
    ensures
        take_lp_be(lp_be(b) + rest) == Some((b, rest)),
{
    lemma_be_round_trip(b.len(), 4);
    lemma_pow256_values();
    assert(lp_be(b) + rest =~= be_bytes(b.len(), 4) + (b + rest));
    lemma_take_n(be_bytes(b.len(), 4), b + rest);
    lemma_take_n(b, rest);
}

/// A length-prefixed field is read back as it was written.
pub proof fn lemma_take_lp_le(b: Seq<u8>, w: nat, rest: Seq<u8>)
    requires
        b.len() < pow256(w),
    ensures
        take_lp_le(lp_le(b, w) + rest, w) == Some((b, rest)),
{
    lemma_le_round_trip(b.len(), w);
    assert(lp_le(b, w) + rest =~= le_bytes(b.len(), w) + (b + rest));
    lemma_take_n(le_bytes(b.len(), w), b + rest);
    lemma_take_n(b, rest);
}

/// A number is read back as it was written.
pub proof fn lemma_take_le(x: nat, w: nat, rest: Seq<u8>)
    requires
        x < pow256(w),
    ensures
        take_le(le_bytes(x, w) + rest, w) == Some((x, rest)),
{
    lemma_le_round_trip(x, w);
    lemma_take_n(le_bytes(x, w), rest);
}


/// What `take_n` gives makes up its input.
pub proof fn lemma_take_n_splits(s: Seq<u8>, n: nat)
    ensures
        match take_n(s, n) {
            Some((head, rest)) => s == head + rest && head.len() == n,
            None => s.len() < n,
        },
{
    if s.len() >= n {
        assert(s =~= s.take(n as int) + s.skip(n as int));
    }
}

/// What `take_lp_be` gives makes up its input.
pub proof fn lemma_take_lp_be_splits(s: Seq<u8>)
    ensures
        match take_lp_be(s) {
            Some((b, rest)) => s == lp_be(b) + rest && b.len() < 0x1_0000_0000,
            None => true,
        },
{
    lemma_take_n_splits(s, 4);
    if let Some((head, r)) = take_n(s, 4) {
        lemma_take_n_splits(r, be_value(head));
        lemma_be_value_round_trip(head);
        lemma_pow256_values();
        if let Some((b, rest)) = take_n(r, be_value(head)) {
            assert(s =~= lp_be(b) + rest);
        }
    }
}

/// What `take_lp_le` gives makes up its input.
pub proof fn lemma_take_lp_le_splits(s: Seq<u8>, w: nat)
    ensures
        match take_lp_le(s, w) {
            Some((b, rest)) => s == lp_le(b, w) + rest && b.len() < pow256(w),
            None => true,
        },
{
    lemma_take_n_splits(s, w);
    if let Some((head, r)) = take_n(s, w) {
        lemma_take_n_splits(r, le_value(head));
        lemma_le_value_round_trip(head);
        if let Some((b, rest)) = take_n(r, le_value(head)) {
            assert(s =~= lp_le(b, w) + rest);
        }
    }
}

/// What `take_le` gives makes up its input.
pub proof fn lemma_take_le_splits(s: Seq<u8>, w: nat)
    ensures
        match take_le(s, w) {
            Some((x, rest)) => s == le_bytes(x, w) + rest && x < pow256(w),
            None => true,
        },
{
    lemma_take_n_splits(s, w);
    if let Some((head, r)) = take_n(s, w) {
        lemma_le_value_round_trip(head);
    }
}

/// Append `b` behind its length as four big-endian bytes.
pub fn put_lp_be(out: &mut Vec<u8>, b: &[u8])
    ensures
        final(out)@ == old(out)@ + lp_be(b@),
{
    let n: u32 = (b.len() as u64 % 0x1_0000_0000) as u32;
    proof {
        lemma_be_truncates(b@.len(), 4);
        lemma_pow256_values();
    }
    put_u32_be(out, n);
    put_bytes(out, b);
    assert(out@ =~= old(out)@ + lp_be(b@));
}

/// Append `b` behind its length as `w` little-endian bytes.
pub fn put_lp_le(out: &mut Vec<u8>, b: &[u8], w: usize)
    ensures
        final(out)@ == old(out)@ + lp_le(b@, w as nat),
{
    put_le(out, b.len() as u64, w);
    put_bytes(out, b);
    assert(out@ =~= old(out)@ + lp_le(b@, w as nat));
}

/// Read `n` bytes at `pos`.
pub fn read_n(data: &[u8], pos: usize, n: usize) -> (r: Option<(Vec<u8>, usize)>)
    requires
        pos <= data@.len(),
    ensures
        match r {
            Some((b, end)) => {
                &&& pos <= end <= data@.len()
                &&& take_n(data@.skip(pos as int), n as nat) == Some((b@, data@.skip(end as int)))
            },
            None => take_n(data@.skip(pos as int), n as nat) is None,
        },
{
    if data.len() - pos < n {
        return None;
    }
    let b: Vec<u8> = slice_to_vec(slice_subrange(data, pos, pos + n));
    assert(data@.skip(pos as int).take(n as int) =~= b@);
    assert(data@.skip(pos as int).skip(n as int) =~= data@.skip(pos + n));
    Some((b, pos + n))
}

/// Read a byte string behind its big-endian length at `pos`.
pub fn read_lp_be(data: &[u8], pos: usize) -> (r: Option<(Vec<u8>, usize)>)
    requires
        pos <= data@.len(),
    ensures
        match r {
            Some((b, end)) => {
                &&& pos <= end <= data@.len()
                &&& take_lp_be(data@.skip(pos as int)) == Some((b@, data@.skip(end as int)))
            },
            None => take_lp_be(data@.skip(pos as int)) is None,
        },
{
    if data.len() - pos < 4 {
        return None;
    }
    let n: u32 = get_u32_be(data, pos);
    proof {
        assert(data@.skip(pos as int).take(4) =~= data@.subrange(pos as int, pos + 4));
        assert(data@.skip(pos as int).skip(4) =~= data@.skip(pos + 4));
    }
    read_n(data, pos + 4, n as usize)
}

/// Read a byte string behind its little-endian length of `w` bytes at `pos`.
pub fn read_lp_le(data: &[u8], pos: usize, w: usize) -> (r: Option<(Vec<u8>, usize)>)
    requires
        pos <= data@.len(),
        w <= 4,
    ensures
        match r {
            Some((b, end)) => {
                &&& pos <= end <= data@.len()
                &&& take_lp_le(data@.skip(pos as int), w as nat) == Some(
                    (b@, data@.skip(end as int)),
                )
            },
            None => take_lp_le(data@.skip(pos as int), w as nat) is None,
        },
{
    if data.len() - pos < w {
        return None;
    }
    let n: u64 = get_le(data, pos, w);
    proof {
        assert(data@.skip(pos as int).take(w as int) =~= data@.subrange(pos as int, pos + w));
        assert(data@.skip(pos as int).skip(w as int) =~= data@.skip(pos + w));
    }
    if n > (data.len() - (pos + w)) as u64 {
        return None;
    }
    read_n(data, pos + w, n as usize)
}

/// Read a number of `w` little-endian bytes at `pos`.
pub fn read_le(data: &[u8], pos: usize, w: usize) -> (r: Option<(u64, usize)>)
    requires
        pos <= data@.len(),
        w <= 8,
    ensures
        match r {
            Some((x, end)) => {
                &&& pos <= end <= data@.len()
                &&& take_le(data@.skip(pos as int), w as nat) == Some(
                    (x as nat, data@.skip(end as int)),
                )
            },
            None => take_le(data@.skip(pos as int), w as nat) is None,
        },
{
    if data.len() - pos < w {
        return None;
    }
    let x: u64 = get_le(data, pos, w);
    proof {
        assert(data@.skip(pos as int).take(w as int) =~= data@.subrange(pos as int, pos + w));
        assert(data@.skip(pos as int).skip(w as int) =~= data@.skip(pos + w));
    }
    Some((x, pos + w))
}

} // verus!
