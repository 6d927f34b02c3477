//! Byte-array bitmaps: bit `i` lives in byte `i / 8`, at position `i % 8`
//! counted from the least significant bit.
use vstd::prelude::*;

verus! {

/// Whether bit `i` of the bitmap `bytes` is set.
pub open spec fn bit_set(bytes: Seq<u8>, i: int) -> bool {
    (bytes[i / 8] >> ((i % 8) as u8)) & 1u8 == 1u8
}

/// Number of set bits among the first `n` bits of `bytes`.
pub open spec fn count_set(bytes: Seq<u8>, n: nat) -> nat
    decreases n,
{
    if n == 0 {
        0
    } else {
        count_set(bytes, (n - 1) as nat) + if bit_set(bytes, n - 1) {
            1nat
        } else {
            0nat
        }
    }
}

/// Number of set bits of the whole bitmap.
pub open spec fn popcount(bytes: Seq<u8>) -> nat {
    count_set(bytes, 8 * bytes.len())
}

pub proof fn lemma_count_le(bytes: Seq<u8>, n: nat)
    ensures
        count_set(bytes, n) <= n,
    decreases n,
{
    if n > 0 {
        lemma_count_le(bytes, (n - 1) as nat);
    }
}

/// A count that reaches its bound means that every bit counted is set.
pub proof fn lemma_count_full(bytes: Seq<u8>, n: nat, i: int)
    requires
        count_set(bytes, n) == n,
        0 <= i < n,
    ensures
        bit_set(bytes, i),
    decreases n,
{
    lemma_count_le(bytes, (n - 1) as nat);
    if i < n - 1 {
        lemma_count_full(bytes, (n - 1) as nat, i);
    }
}

/// Bitmaps that agree on the first `n` bits count the same there.
pub proof fn lemma_count_same(a: Seq<u8>, b: Seq<u8>, n: nat)
    requires
        forall|i: int| 0 <= i < n ==> bit_set(a, i) == bit_set(b, i),
    ensures
        count_set(a, n) == count_set(b, n),
    decreases n,
{
    if n > 0 {
        lemma_count_same(a, b, (n - 1) as nat);
    }
}

/// Turning one clear bit on, and nothing else, adds one to the count.
pub proof fn lemma_count_one_more(a: Seq<u8>, b: Seq<u8>, n: nat, k: int)
    requires
        0 <= k < n,
        !bit_set(a, k),
        bit_set(b, k),
        forall|i: int| 0 <= i < n && i != k ==> bit_set(a, i) == bit_set(b, i),
    ensures
        count_set(b, n) == count_set(a, n) + 1,
    decreases n,
{
    if k == n - 1 {
        lemma_count_same(a, b, (n - 1) as nat);
    } else {
        lemma_count_one_more(a, b, (n - 1) as nat, k);
    }
}

proof fn lemma_byte_bits(x: u8, j: u8, k: u8)
    requires
        j < 8,
        k < 8,
    ensures
        ((x | (1u8 << j)) >> k) & 1u8 == if k == j {
            1u8
        } else {
            (x >> k) & 1u8
        },
        ((x & !(1u8 << j)) >> k) & 1u8 == if k == j {
            0u8
        } else {
            (x >> k) & 1u8
        },
        (x & (1u8 << j) == 0u8) == ((x >> j) & 1u8 != 1u8),
{
    assert(((x | (1u8 << j)) >> k) & 1u8 == if k == j {
        1u8
    } else {
        (x >> k) & 1u8
    }) by (bit_vector)
        requires
            j < 8,
            k < 8,
    ;
    assert(((x & !(1u8 << j)) >> k) & 1u8 == if k == j {
        0u8
    } else {
        (x >> k) & 1u8
    }) by (bit_vector)
        requires
            j < 8,
            k < 8,
    ;
    assert((x & (1u8 << j) == 0u8) == ((x >> j) & 1u8 != 1u8)) by (bit_vector)
        requires
            j < 8,
    ;
}

/// Index of the first clear bit of `bytes`, scanning bytes in ascending
/// order and the bits of a byte from the least significant one up.
pub fn first_clear_bit(bytes: &Vec<u8>) -> (r: Option<usize>)
    requires
        bytes@.len() <= usize::MAX / 8,
    ensures
        match r {
            Some(i) => i < 8 * bytes@.len() && !bit_set(bytes@, i as int) && forall|k: int|
                0 <= k < i ==> bit_set(bytes@, k),
            None => forall|k: int| 0 <= k < 8 * bytes@.len() ==> bit_set(bytes@, k),
        },
{
    let mut i: usize = 0;
    while i < bytes.len()
        invariant
            i <= bytes@.len() <= usize::MAX / 8,
            forall|k: int| 0 <= k < 8 * i ==> bit_set(bytes@, k),
        decreases bytes@.len() - i,
    {
        let byte = bytes[i];
        let mut j: u8 = 0;
        while j < 8
            invariant
                i < bytes@.len() <= usize::MAX / 8,
                byte == bytes@[i as int],
                j <= 8,
                forall|k: int| 0 <= k < 8 * i + j ==> bit_set(bytes@, k),
            decreases 8 - j,
        {
            proof {
                lemma_byte_bits(byte, j, j);
                assert((8 * i + j) / 8 == i && (8 * i + j) % 8 == j as int);
            }
            if byte & (1u8 << j) == 0 {
                return Some(i * 8 + j as usize);
            }
            j = j + 1;
        }
        i = i + 1;
    }
    None
}

/// Sets bit `i` of `bytes`, leaving every other bit as it was.
pub fn set_bit(bytes: &mut Vec<u8>, i: usize)
    requires
        i < 8 * old(bytes)@.len(),
    ensures
        final(bytes)@.len() == old(bytes)@.len(),
        bit_set(final(bytes)@, i as int),
        forall|k: int|
            0 <= k < 8 * old(bytes)@.len() && k != i ==> bit_set(final(bytes)@, k) == bit_set(
                old(bytes)@,
                k,
            ),
{
    let idx = i / 8;
    let j = (i % 8) as u8;
    let byte = bytes[idx];
    bytes.set(idx, byte | (1u8 << j));
    proof {
        assert forall|k: int| 0 <= k < 8 * old(bytes)@.len() && k != i implies bit_set(final(bytes)@, k) == bit_set(
            old(bytes)@,
            k,
        ) by {
            if k / 8 == idx {
                assert(k % 8 != j);
                lemma_byte_bits(byte, j, (k % 8) as u8);
            }
        }
        lemma_byte_bits(byte, j, j);
    }
}

/// Clears bit `i` of `bytes`, leaving every other bit as it was.
pub fn clear_bit(bytes: &mut Vec<u8>, i: usize)
    requires
        i < 8 * old(bytes)@.len(),
    ensures
        final(bytes)@.len() == old(bytes)@.len(),
        !bit_set(final(bytes)@, i as int),
        forall|k: int|
            0 <= k < 8 * old(bytes)@.len() && k != i ==> bit_set(final(bytes)@, k) == bit_set(
                old(bytes)@,
                k,
            ),
{
    let idx = i / 8;
    let j = (i % 8) as u8;
    let byte = bytes[idx];
    bytes.set(idx, byte & !(1u8 << j));
    proof {
        assert forall|k: int| 0 <= k < 8 * old(bytes)@.len() && k != i implies bit_set(final(bytes)@, k) == bit_set(
            old(bytes)@,
            k,
        ) by {
            if k / 8 == idx {
                assert(k % 8 != j);
                lemma_byte_bits(byte, j, (k % 8) as u8);
            }
        }
        lemma_byte_bits(byte, j, j);
    }
}

/// Whether bit `i` of `bytes` is set.
pub fn test_bit(bytes: &Vec<u8>, i: usize) -> (r: bool)
    requires
        i < 8 * bytes@.len(),
    ensures
        r == bit_set(bytes@, i as int),
{
    let j = (i % 8) as u8;
    let byte = bytes[i / 8];
    proof {
        lemma_byte_bits(byte, j, j);
    }
    byte & (1u8 << j) != 0
}

} // verus!
