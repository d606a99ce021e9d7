use nohash::NoHashHasher;
use std::collections::{HashMap, HashSet};
use std::hash::BuildHasherDefault;
use vstd::prelude::*;

verus! {

/// The identity hasher of the `nohash` crate, for integer keys that are
/// already well spread (here: values of `hash`).
#[verifier::external_type_specification]
#[verifier::external_body]
#[verifier::reject_recursive_types(T)]
pub struct ExNoHashHasher<T>(NoHashHasher<T>);

/// The standard builder of default-constructed hashers.
#[verifier::external_type_specification]
#[verifier::external_body]
#[verifier::reject_recursive_types(H)]
pub struct ExBuildHasherDefault<H>(BuildHasherDefault<H>);

/// A hash map that hashes its integer keys with the identity hasher.
pub type NoHashMap<K, V> = HashMap<K, V, BuildHasherDefault<NoHashHasher<K>>>;

/// A hash set that hashes its integer keys with the identity hasher.
pub type NoHashSet<K> = HashSet<K, BuildHasherDefault<NoHashHasher<K>>>;

/// `HashMap::get` on a map with the identity hasher: `nohash` hashes a
/// `u64` to itself (one `write_u64`, then `finish`), so the map behaves
/// as the finite map of its entries and `get` returns the entry's value
/// or `None` where the key is absent.
#[verifier::external_body]
pub(crate) fn nohash_map_get<V>(map: &NoHashMap<u64, V>, key: u64) -> (value: Option<&V>)
    ensures
        match value {
            Some(v) => map@.contains_key(key) && *v == map@[key],
            None => !map@.contains_key(key),
        },
{
    map.get(&key)
}

/// `HashMap::get_mut` on a map with the identity hasher: a mutable
/// reference to the entry's value, through which the entry alone changes;
/// `None` (and no change) where the key is absent.
#[verifier::external_body]
pub(crate) fn nohash_map_get_mut<V>(map: &mut NoHashMap<u64, V>, key: u64) -> (value: Option<&mut V>)
    ensures
        match value {
            Some(v) => {
                &&& old(map)@.contains_key(key)
                &&& *v == old(map)@[key]
                &&& final(map)@ == old(map)@.insert(key, *final(v))
            },
            None => !old(map)@.contains_key(key) && final(map)@ == old(map)@,
        },
{
    map.get_mut(&key)
}

/// `HashMap::insert` on a map with the identity hasher: the key now maps
/// to the value, every other entry is unchanged.
#[verifier::external_body]
pub(crate) fn nohash_map_insert<V>(map: &mut NoHashMap<u64, V>, key: u64, value: V)
    ensures
        final(map)@ == old(map)@.insert(key, value),
{
    map.insert(key, value);
}

/// `HashMap::remove` on a map with the identity hasher: the entry of the
/// key is gone, every other entry is unchanged.
#[verifier::external_body]
pub(crate) fn nohash_map_remove<V>(map: &mut NoHashMap<u64, V>, key: u64)
    ensures
        final(map)@ == old(map)@.remove(key),
{
    map.remove(&key);
}

/// `HashSet::contains` on a set with the identity hasher: whether the
/// value is an element.
#[verifier::external_body]
pub(crate) fn nohash_set_contains(set: &NoHashSet<u64>, value: u64) -> (found: bool)
    ensures
        found == set@.contains(value),
{
    set.contains(&value)
}

/// `HashSet::insert` on a set with the identity hasher: the value is now
/// an element, and no other element comes or goes.
#[verifier::external_body]
pub(crate) fn nohash_set_insert(set: &mut NoHashSet<u64>, value: u64)
    ensures
        final(set)@ == old(set)@.insert(value),
{
    set.insert(value);
}

/// The number of lanes that `parallel_hash` processes at once.
pub const SIMD_LANES: usize = 64;

/// The odd multiplier of the hash (the 64-bit golden ratio constant).
pub const PRIME: u64 = 11400714785074694791;

/// The multiplicative inverse of `PRIME` modulo 2^64.
pub const PRIME_INVERSE: u64 = 614540362697595703;

/// `x` xor its own value shifted right by 33 bits.
pub open spec fn xor_shift(x: u64) -> u64 {
    x ^ (x >> 33u64)
}

/// Multiplication modulo 2^64.
pub open spec fn mul_wrap(x: u64, y: u64) -> u64 {
    ((x as nat * y as nat) % 0x1_0000_0000_0000_0000nat) as u64
}

/// The hash of a 64-bit value: xor-shift, multiply by `PRIME`, xor-shift.
pub open spec fn spec_hash(value: u64) -> u64 {
    xor_shift(mul_wrap(xor_shift(value), PRIME))
}

/// Hashes a 64-bit value.
pub fn hash(value: u64) -> (h: u64)
    ensures
        h == spec_hash(value),
{
    let round1 = value ^ value.wrapping_shr(33);
    let round2 = round1.wrapping_mul(PRIME);
    round2 ^ round2.wrapping_shr(33)
}

/// Hashes every lane of `vector` at once.
pub fn parallel_hash(vector: [u64; SIMD_LANES]) -> (hashes: [u64; SIMD_LANES])
    ensures
        forall|i: int| 0 <= i < SIMD_LANES ==> hashes[i] == spec_hash(#[trigger] vector[i]),
{
    let mut hashes = vector;
    let mut i: usize = 0;
    while i < SIMD_LANES
        invariant
            0 <= i <= SIMD_LANES,
            forall|j: int| 0 <= j < i ==> hashes[j] == spec_hash(#[trigger] vector[j]),
            forall|j: int| i <= j < SIMD_LANES ==> hashes[j] == vector[j],
        decreases SIMD_LANES - i,
    {
        hashes[i] = hash(vector[i]);
        i = i + 1;
    }
    hashes
}

proof fn lemma_xor_shift_involution(x: u64)
    ensures
        xor_shift(xor_shift(x)) == x,
{
    assert((x ^ (x >> 33u64)) ^ ((x ^ (x >> 33u64)) >> 33u64) == x) by (bit_vector);
}

proof fn lemma_mul_wrap_inverse(x: u64)
    ensures
        mul_wrap(mul_wrap(x, PRIME), PRIME_INVERSE) == x,
{
    let m: int = 0x1_0000_0000_0000_0000int;
    let p: int = PRIME as int;
    let q: int = PRIME_INVERSE as int;
    vstd::arithmetic::div_mod::lemma_mul_mod_noop_left(x as int * p, q, m);
    vstd::arithmetic::mul::lemma_mul_is_associative(x as int, p, q);
    assert(p * q == 1 + 379806830464837242int * m);
    vstd::arithmetic::mul::lemma_mul_is_distributive_add(x as int, 1, 379806830464837242int * m);
    vstd::arithmetic::mul::lemma_mul_is_associative(x as int, 379806830464837242int, m);
    vstd::arithmetic::div_mod::lemma_mod_multiples_vanish(x as int * 379806830464837242int, x as int, m);
    vstd::arithmetic::div_mod::lemma_small_mod(x as nat, m as nat);
}

/// The inverse of the hash: xor-shift, multiply by `PRIME_INVERSE`,
/// xor-shift.
pub open spec fn spec_unhash(h: u64) -> u64 {
    xor_shift(mul_wrap(xor_shift(h), PRIME_INVERSE))
}

/// Undoing the hash gives the value back.
pub proof fn lemma_unhash(value: u64)
    ensures
        spec_unhash(spec_hash(value)) == value,
{
    lemma_xor_shift_involution(mul_wrap(xor_shift(value), PRIME));
    lemma_mul_wrap_inverse(xor_shift(value));
    lemma_xor_shift_involution(value);
}

/// The hash is one-to-one: distinct values never share a hash, so a
/// table keyed by hashes identifies each value by its key.
pub proof fn lemma_hash_injective(a: u64, b: u64)
    ensures
        spec_hash(a) == spec_hash(b) ==> a == b,
{
    if spec_hash(a) == spec_hash(b) {
        lemma_xor_shift_involution(mul_wrap(xor_shift(a), PRIME));
        lemma_xor_shift_involution(mul_wrap(xor_shift(b), PRIME));
        lemma_mul_wrap_inverse(xor_shift(a));
        lemma_mul_wrap_inverse(xor_shift(b));
        lemma_xor_shift_involution(a);
        lemma_xor_shift_involution(b);
    }
}

} // verus!
