//! Perceptual hash values as byte strings, and the distance between two of them.

use image_hasher::ImageHash;
use vstd::prelude::*;

verus! {

/// The largest hash, in bytes, whose bit count still fits in a `u32`.
pub const MAX_HASH_BYTES: usize = 0x1FFF_FFFF;

/// Number of one bits in a byte.
pub open spec fn bit_count(byte: u8) -> nat
    decreases byte,
{
    if byte == 0 {
        0
    } else {
        (byte % 2) as nat + bit_count(byte / 2)
    }
}

/// Number of differing bits in the first `n` byte positions of `a` and `b`.
pub open spec fn differing_bits(a: Seq<u8>, b: Seq<u8>, n: nat) -> nat
    decreases n,
{
    if n == 0 {
        0
    } else {
        differing_bits(a, b, (n - 1) as nat) + bit_count(a[n - 1] ^ b[n - 1])
    }
}

/// Hamming distance of two hashes: the number of bit positions in which they
/// differ, counted over the length of the shorter one.
pub open spec fn hamming_distance(a: Seq<u8>, b: Seq<u8>) -> nat {
    differing_bits(a, b, if a.len() <= b.len() { a.len() } else { b.len() })
}

proof fn lemma_bit_count_bound(byte: u8)
    ensures
        bit_count(byte) <= 8,
{
    reveal_with_fuel(bit_count, 9);
}

proof fn lemma_differing_bits_bound(a: Seq<u8>, b: Seq<u8>, n: nat)
    ensures
        differing_bits(a, b, n) <= 8 * n,
    decreases n,
{
    if n > 0 {
        lemma_differing_bits_bound(a, b, (n - 1) as nat);
        lemma_bit_count_bound(a[n - 1] ^ b[n - 1]);
    }
}

/// The distance is at most the bit count of the shorter hash, so the
/// distance of hashes of up to `MAX_HASH_BYTES` bytes fits in a `u32`.
pub proof fn lemma_hamming_bounded(a: Seq<u8>, b: Seq<u8>)
    ensures
        hamming_distance(a, b) <= 8 * a.len(),
        hamming_distance(a, b) <= 8 * b.len(),
        a.len() <= MAX_HASH_BYTES || b.len() <= MAX_HASH_BYTES ==> hamming_distance(a, b)
            <= u32::MAX,
{
    let n = if a.len() <= b.len() {
        a.len()
    } else {
        b.len()
    };
    lemma_differing_bits_bound(a, b, n);
}

/// The distance does not depend on the order of its arguments.
pub proof fn lemma_hamming_symmetric(a: Seq<u8>, b: Seq<u8>)
    ensures
        hamming_distance(a, b) == hamming_distance(b, a),
{
    let n = if a.len() <= b.len() { a.len() } else { b.len() };
    lemma_differing_bits_symmetric(a, b, n);
}

proof fn lemma_differing_bits_symmetric(a: Seq<u8>, b: Seq<u8>, n: nat)
    ensures
        differing_bits(a, b, n) == differing_bits(b, a, n),
    decreases n,
{
    if n > 0 {
        lemma_differing_bits_symmetric(a, b, (n - 1) as nat);
        let x = a[n - 1];
        let y = b[n - 1];
        assert(x ^ y == y ^ x) by (bit_vector);
    }
}

/// A hash is at distance zero from itself.
pub proof fn lemma_hamming_self(a: Seq<u8>)
    ensures
        hamming_distance(a, a) == 0,
{
    lemma_differing_bits_self(a, a.len());
}

proof fn lemma_differing_bits_self(a: Seq<u8>, n: nat)
    ensures
        differing_bits(a, a, n) == 0,
    decreases n,
{
    if n > 0 {
        lemma_differing_bits_self(a, (n - 1) as nat);
        let x = a[n - 1];
        assert(x ^ x == 0) by (bit_vector);
    }
}

/// Calls `ImageHash::dist` of `image_hasher` on two hashes rebuilt from their
/// bytes with `ImageHash::from_bytes`. The crate sums, over the byte pairs that
/// zipping the two slices yields, the one bits of their XOR; the contract
/// states that sum. Empty input is left out because `from_bytes` rejects it,
/// and longer input because the `u32` sum could overflow.
#[verifier::external_body]
fn image_hash_dist(a: &Vec<u8>, b: &Vec<u8>) -> (d: u32)
    requires
        0 < a.len() <= MAX_HASH_BYTES,
        0 < b.len() <= MAX_HASH_BYTES,
    ensures
        d == hamming_distance(a@, b@),
{
    let left = ImageHash::<Box<[u8]>>::from_bytes(a).unwrap();
    let right = ImageHash::<Box<[u8]>>::from_bytes(b).unwrap();
    left.dist(&right)
}

/// Hamming distance between two hashes.
pub fn distance(a: &Vec<u8>, b: &Vec<u8>) -> (d: u32)
    requires
        a.len() <= MAX_HASH_BYTES,
        b.len() <= MAX_HASH_BYTES,
    ensures
        d == hamming_distance(a@, b@),
{
    if a.len() == 0 || b.len() == 0 {
        0
    } else {
        image_hash_dist(a, b)
    }
}

} // verus!
