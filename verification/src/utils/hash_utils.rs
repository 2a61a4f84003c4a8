//! A polynomial hash of a sequence of values.
use vstd::prelude::*;
use vstd::wrapping::u64_specs::{wrapping_add, wrapping_mul};
use std::hash::{Hash, Hasher};

verus! {

pub const POW: u64 = 31;
pub const MOD: u64 = 1000000007;

/// Hashes `value` with a fresh `DefaultHasher` (`DefaultHasher::new`,
/// `Hash::hash`, `Hasher::finish`). The hasher's algorithm is unspecified,
/// may change between Rust releases, and is fed the value's native-endian
/// bytes, so nothing is stated of the result.
#[verifier::external_body]
fn hash_value(value: &u64) -> (r: u64)
{
    let mut hasher = std::collections::hash_map::DefaultHasher::new();
    value.hash(&mut hasher);
    hasher.finish()
}

/// The running hash and power after folding in `hashes`, starting from `(1, 1)`.
pub open spec fn poly_hash_state(hashes: Seq<u64>) -> (u64, u64)
    decreases hashes.len(),
{
    if hashes.len() == 0 {
        (1, 1)
    } else {
        let (hash, pow) = poly_hash_state(hashes.drop_last());
        let h = hashes.last();
        (
            (wrapping_add(hash, wrapping_mul(wrapping_add(1, h), pow)) % MOD) as u64,
            (wrapping_mul(pow, POW) % MOD) as u64,
        )
    }
}

/// The polynomial hash of a sequence of element hashes.
pub open spec fn poly_hash(hashes: Seq<u64>) -> u64 {
    poly_hash_state(hashes).0
}

/// Folds element hashes into the polynomial hash: each step adds
/// `(1 + h) * pow` and multiplies `pow` by 31, both modulo 1e9 + 7 (the
/// additions and multiplications wrap around at 2^64 first).
pub fn poly_hash_of_element_hashes(hashes: &[u64]) -> (r: u64)
    ensures
        r == poly_hash(hashes@),
{
    let mut hash: u64 = 1;
    let mut pow: u64 = 1;
    let mut i: usize = 0;
    while i < hashes.len()
        invariant
            i <= hashes@.len(),
            (hash, pow) == poly_hash_state(hashes@.take(i as int)),
        decreases hashes.len() - i,
    {
        let h = hashes[i];
        assert(hashes@.take(i + 1).drop_last() =~= hashes@.take(i as int));
        hash = (hash.wrapping_add((1u64.wrapping_add(h)).wrapping_mul(pow))) % MOD;
        pow = pow.wrapping_mul(POW) % MOD;
        i = i + 1;
    }
    assert(hashes@.take(hashes@.len() as int) =~= hashes@);
    hash
}

/// The polynomial hash of a collection, each element hashed with
/// `DefaultHasher`: the fold of `poly_hash_of_element_hashes` over one hash
/// per element, in the collection's order.
pub fn calculate_poly_hash_for_collection(slice: &[u64]) -> (r: u64)
    ensures
        exists|hashes: Seq<u64>| hashes.len() == slice@.len() && r == poly_hash(hashes),
{
    let mut hashes: Vec<u64> = Vec::new();
    let mut i: usize = 0;
    while i < slice.len()
        invariant
            i <= slice@.len(),
            hashes@.len() == i,
        decreases slice.len() - i,
    {
        hashes.push(hash_value(&slice[i]));
        i = i + 1;
    }
    let r = poly_hash_of_element_hashes(hashes.as_slice());
    assert(hashes@.len() == slice@.len() && r == poly_hash(hashes@));
    r
}

} // verus!
