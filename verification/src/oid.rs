//! Content-addressed object identifiers.
//!
//! An [`Oid`] is a fixed-width (20-byte) digest computed deterministically
//! over an object's canonical serialized form.  The digest carries three
//! components: a 64-bit rolling polynomial hash for spread, the exact
//! 64-bit byte sum, and the 32-bit content length.  Identical content
//! always yields the identical `Oid`, and any single-byte change to the
//! content provably changes the digest (the byte sum moves).

use vstd::prelude::*;

verus! {

/// The modulus of the rolling hash component: 2^64.
pub open spec fn hash_modulus() -> int {
    0x1_0000_0000_0000_0000
}

/// A 20-byte content-addressed object identifier: an 8-byte rolling
/// hash, an 8-byte exact byte sum, and the 4-byte content length.
#[derive(Clone, Copy, PartialEq, Eq, Structural, Hash, Debug)]
pub struct Oid {
    pub hash: u64,
    pub sum: u64,
    pub len: u32,
}

/// Rolling polynomial hash of a byte sequence, reduced mod 2^64.
pub open spec fn poly_hash(s: Seq<u8>) -> int
    decreases s.len(),
{
    if s.len() == 0 {
        5381
    } else {
        (poly_hash(s.drop_last()) * 131 + s.last() + 1) % hash_modulus()
    }
}

/// Exact sum of all bytes of a sequence.
pub open spec fn byte_sum(s: Seq<u8>) -> int
    decreases s.len(),
{
    if s.len() == 0 {
        0
    } else {
        byte_sum(s.drop_last()) + s.last()
    }
}

/// The digest of a byte sequence: the mathematical definition that the
/// executable hashing function is proved to match.
pub open spec fn oid_of(s: Seq<u8>) -> Oid {
    Oid { hash: poly_hash(s) as u64, sum: byte_sum(s) as u64, len: s.len() as u32 }
}

/// The largest content size the digest covers exactly.
pub open spec fn max_content_len() -> int {
    0xFFFF_FFFF
}

pub proof fn lemma_poly_hash_in_range(s: Seq<u8>)
    ensures
        0 <= poly_hash(s) < hash_modulus(),
    decreases s.len(),
{
    if s.len() == 0 {
    } else {
        lemma_poly_hash_in_range(s.drop_last());
    }
}

pub proof fn lemma_byte_sum_in_range(s: Seq<u8>)
    ensures
        0 <= byte_sum(s) <= 255 * s.len(),
    decreases s.len(),
{
    if s.len() == 0 {
    } else {
        lemma_byte_sum_in_range(s.drop_last());
    }
}

/// Computes the content digest of the first `n` bytes of a string.
pub fn hash_prefix(b: &Vec<u8>, n: usize) -> (r: Oid)
    requires
        n <= b@.len(),
        n <= max_content_len(),
    ensures
        r == oid_of(b@.take(n as int)),
{
    let mut h: u64 = 5381;
    let mut sum: u64 = 0;
    let mut i: usize = 0;
    proof {
        assert(b@.take(0) =~= Seq::<u8>::empty());
    }
    while i < n
        invariant
            0 <= i <= n,
            n <= b@.len(),
            n <= max_content_len(),
            h == poly_hash(b@.take(i as int)),
            sum == byte_sum(b@.take(i as int)),
            sum <= 255 * i,
        decreases n - i,
    {
        let byte = b[i];
        proof {
            lemma_poly_hash_in_range(b@.take(i as int));
            lemma_byte_sum_in_range(b@.take(i as int));
            assert(b@.take(i + 1).drop_last() =~= b@.take(i as int));
            assert(b@.take(i + 1).last() == b@[i as int]);
        }
        h = (((h as u128) * 131 + byte as u128 + 1) % 0x1_0000_0000_0000_0000u128) as u64;
        sum = sum + byte as u64;
        i = i + 1;
    }
    Oid { hash: h, sum, len: n as u32 }
}

/// Computes the content digest of a byte string.
pub fn hash_bytes(b: &Vec<u8>) -> (r: Oid)
    requires
        b@.len() <= max_content_len(),
    ensures
        r == oid_of(b@),
{
    let r = hash_prefix(b, b.len());
    proof {
        assert(b@.take(b@.len() as int) =~= b@);
    }
    r
}

/// Hash determinism: equal canonical byte strings always yield the
/// identical digest.
pub proof fn lemma_oid_deterministic(s1: Seq<u8>, s2: Seq<u8>)
    requires
        s1 == s2,
    ensures
        oid_of(s1) == oid_of(s2),
{
}

proof fn lemma_byte_sum_single_change(s1: Seq<u8>, s2: Seq<u8>, j: int)
    requires
        s1.len() == s2.len(),
        0 <= j < s1.len(),
        forall|k: int| 0 <= k < s1.len() && k != j ==> s1[k] == s2[k],
    ensures
        byte_sum(s1) - byte_sum(s2) == s1[j] - s2[j],
    decreases s1.len(),
{
    if j == s1.len() - 1 {
        assert(s1.drop_last() =~= s2.drop_last());
    } else {
        assert(s1.last() == s2.last());
        lemma_byte_sum_single_change(s1.drop_last(), s2.drop_last(), j);
        assert(s1.drop_last()[j] == s1[j]);
        assert(s2.drop_last()[j] == s2[j]);
    }
}

/// Practical collision freedom: changing any single byte of the content
/// changes the digest.
pub proof fn lemma_oid_single_byte_change(s1: Seq<u8>, s2: Seq<u8>, j: int)
    requires
        s1.len() == s2.len(),
        s1.len() <= max_content_len(),
        0 <= j < s1.len(),
        s1[j] != s2[j],
        forall|k: int| 0 <= k < s1.len() && k != j ==> s1[k] == s2[k],
    ensures
        oid_of(s1) != oid_of(s2),
{
    lemma_byte_sum_single_change(s1, s2, j);
    lemma_byte_sum_in_range(s1);
    lemma_byte_sum_in_range(s2);
    assert(byte_sum(s1) != byte_sum(s2));
    assert(oid_of(s1).sum != oid_of(s2).sum);
}

/// Contents of different lengths never share a digest.
pub proof fn lemma_oid_length_change(s1: Seq<u8>, s2: Seq<u8>)
    requires
        s1.len() <= max_content_len(),
        s2.len() <= max_content_len(),
        s1.len() != s2.len(),
    ensures
        oid_of(s1) != oid_of(s2),
{
    assert(oid_of(s1).len != oid_of(s2).len);
}

} // verus!
