use magic_squares::hashing::{hash, parallel_hash, NoHashMap, NoHashSet, PRIME, SIMD_LANES};

#[test]
fn hash_of_zero_is_zero() {
    assert_eq!(hash(0), 0);
}

#[test]
fn hash_known_values() {
    assert_eq!(hash(1), 11400714786232628831);
    assert_eq!(hash(2), 4354685496608222399);
    assert_eq!(hash(12345), 11613483418287659230);
}

#[test]
fn hash_matches_formula() {
    for value in [3u64, 99, 1 << 40, u64::MAX, 541875, 361250] {
        let round1 = value ^ (value >> 33);
        let round2 = round1.wrapping_mul(PRIME);
        assert_eq!(hash(value), round2 ^ (round2 >> 33));
    }
}

#[test]
fn hash_is_injective_on_a_range() {
    let mut seen = std::collections::HashSet::new();
    for value in 0u64..10_000 {
        assert!(seen.insert(hash(value)));
    }
}

#[test]
fn parallel_hash_hashes_every_lane() {
    let mut lanes = [0u64; SIMD_LANES];
    for (i, lane) in lanes.iter_mut().enumerate() {
        *lane = (i as u64) * 1_000_003 + 7;
    }
    let hashes = parallel_hash(lanes);
    for i in 0..SIMD_LANES {
        assert_eq!(hashes[i], hash(lanes[i]));
    }
}

#[test]
fn nohash_tables_hold_integer_keys() {
    let mut map: NoHashMap<u64, usize> = NoHashMap::default();
    map.insert(hash(5), 1);
    assert_eq!(map.get(&hash(5)), Some(&1));
    let mut set: NoHashSet<u64> = NoHashSet::default();
    set.insert(25);
    assert!(set.contains(&25));
}
