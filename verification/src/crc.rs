//! The CRC-32 checksum that guards log records, edits of the manifest and table blocks.

use vstd::prelude::*;

verus! {

/// One step of the division by the polynomial, the bits reflected.
pub open spec fn crc_shift(x: u32) -> u32 {
    if x & 1 == 1 {
        (x >> 1) ^ 0xEDB8_8320u32
    } else {
        x >> 1
    }
}

/// `n` steps of the division.
pub open spec fn crc_shifts(x: u32, n: nat) -> u32
    decreases n,
{
    if n == 0 {
        x
    } else {
        crc_shift(crc_shifts(x, (n - 1) as nat))
    }
}

/// The remainder after the bytes of `data`, which starts with all bits set.
pub open spec fn crc_run(data: Seq<u8>) -> u32
    decreases data.len(),
{
    if data.len() == 0 {
        0xFFFF_FFFFu32
    } else {
        crc_shifts(crc_run(data.drop_last()) ^ (data.last() as u32), 8)
    }
}

/// The CRC-32 (IEEE) checksum of a byte string.
pub open spec fn crc32(data: Seq<u8>) -> u32 {
    crc_run(data) ^ 0xFFFF_FFFFu32
}

/// `crc32fast::hash` computes the CRC-32 (IEEE) checksum of the whole buffer: the
/// reflected polynomial 0xEDB88320, all bits set at the start, and all of them turned
/// round at the end.
pub assume_specification[ crc32fast::hash ](buf: &[u8]) -> (r: u32)
    ensures
        r == crc32(buf@),
;

proof fn lemma_shift_injective(x: u32, y: u32)
    requires
        crc_shift(x) == crc_shift(y),
    ensures
        x == y,
{
    assert((if x & 1 == 1 {
        (x >> 1) ^ 0xEDB8_8320u32
    } else {
        x >> 1
    }) == (if y & 1 == 1 {
        (y >> 1) ^ 0xEDB8_8320u32
    } else {
        y >> 1
    }) ==> x == y) by (bit_vector);
}

proof fn lemma_shifts_injective(x: u32, y: u32, n: nat)
    requires
        crc_shifts(x, n) == crc_shifts(y, n),
    ensures
        x == y,
    decreases n,
{
    if n > 0 {
        lemma_shift_injective(crc_shifts(x, (n - 1) as nat), crc_shifts(y, (n - 1) as nat));
        lemma_shifts_injective(x, y, (n - 1) as nat);
    }
}

/// Byte strings that differ in one place leave different remainders.
proof fn lemma_run_differs(a: Seq<u8>, b: Seq<u8>, i: int)
    requires
        a.len() == b.len(),
        0 <= i < a.len(),
        a[i] != b[i],
        forall|j: int| 0 <= j < a.len() && j != i ==> a[j] == b[j],
    ensures
        crc_run(a) != crc_run(b),
    decreases a.len(),
{
    let x = crc_run(a.drop_last());
    let y = crc_run(b.drop_last());
    let p = a.last() as u32;
    let q = b.last() as u32;
    if i == a.len() - 1 {
        assert(a.drop_last() =~= b.drop_last());
        assert(x ^ p == x ^ q ==> p == q) by (bit_vector);
    } else {
        lemma_run_differs(a.drop_last(), b.drop_last(), i);
        assert(x ^ p == y ^ p ==> x == y) by (bit_vector);
    }
    if crc_run(a) == crc_run(b) {
        lemma_shifts_injective(x ^ p, y ^ q, 8);
    }
}

/// A byte that was changed changes the checksum.
pub proof fn law_changed_byte_changes_checksum(data: Seq<u8>, i: int, x: u8)
    requires
        0 <= i < data.len(),
        x != data[i],
    ensures
        crc32(data.update(i, x)) != crc32(data),
{
    let a = crc_run(data);
    let b = crc_run(data.update(i, x));
    lemma_run_differs(data, data.update(i, x), i);
    assert(a ^ 0xFFFF_FFFFu32 == b ^ 0xFFFF_FFFFu32 ==> a == b) by (bit_vector);
}

} // verus!
