use magic_squares::hashing::{hash, NoHashMap, NoHashSet};
use magic_squares::search::{
    add_center, center_numbers, check_pair, complement_class, pair_class, passes_residue_filter,
    pop_ready_center, primes_allowed, record_square, record_sums_for_class, residue_class, resume_position, start_position,
    CHECKPOINT_FREQUENCY,
};
use magic_squares::shared_vec::SharedVec;
use std::collections::VecDeque;

#[test]
fn residue_classes() {
    assert_eq!(residue_class(1), 0);
    assert_eq!(residue_class(25), 1);
    assert_eq!(residue_class(49), 2);
    assert_eq!(residue_class(73), 0);
    assert_eq!(complement_class(0), 0);
    assert_eq!(complement_class(1), 2);
    assert_eq!(complement_class(2), 1);
    assert_eq!(pair_class(1, 0), 2);
    assert_eq!(pair_class(2, 2), 0);
}

#[test]
fn class_of_a_sum_of_two_squares() {
    // 5^2 + 7^2 = 74: classes 1 and 0 (25 and 49 mod 72)...
    let (a, b) = (25u64, 49u64);
    let sum_class = residue_class(a + b);
    assert_eq!(residue_class(b), pair_class(residue_class(a), sum_class));
    // the doubled center has the complement class
    for center in [1u64, 5, 7, 11, 13, 425] {
        let square = center * center;
        assert_eq!(residue_class(2 * square), complement_class(residue_class(square)));
        assert_eq!((3 * square) % 72, 3);
    }
}

#[test]
fn residue_filter() {
    assert!(passes_residue_filter(25));
    assert!(passes_residue_filter(49));
    assert!(!passes_residue_filter(9));
    assert!(!passes_residue_filter(16));
}

#[test]
fn primes_allowed_checks_each_prime() {
    assert!(primes_allowed(&[]));
    assert!(primes_allowed(&[(5, 1), (7, 2), (17, 1), (13, 1)]));
    assert!(!primes_allowed(&[(5, 1), (3, 1)]));
    assert!(!primes_allowed(&[(11, 1)]));
}

#[test]
fn prime_filter_through_the_sieve() {
    let sieve = primal::Sieve::new(1000);
    assert_eq!(magic_squares::search::passes_prime_filter(&sieve, 1), Some(true));
    assert_eq!(magic_squares::search::passes_prime_filter(&sieve, 0), None);
    assert_eq!(magic_squares::search::passes_prime_filter(&sieve, 5 * 7 * 13), Some(true));
    assert_eq!(magic_squares::search::passes_prime_filter(&sieve, 5 * 3), Some(false));
    assert_eq!(magic_squares::search::passes_prime_filter(&sieve, 425), Some(true));
    assert_eq!(magic_squares::search::passes_prime_filter(&sieve, 7 * 7 * 17 * 3), Some(false));
    // The largest prime below 2^32 is beyond what a small sieve can factor.
    assert_eq!(magic_squares::search::passes_prime_filter(&sieve, 4_294_967_291), None);
}

#[test]
fn record_sums_only_under_held_sums() {
    let mut sums: NoHashMap<u64, SharedVec> = NoHashMap::default();
    sums.insert(hash(50), SharedVec::default());
    sums.insert(hash(74), SharedVec::default());
    let squares = vec![1u64, 25, 49];
    record_sums_for_class(&mut sums, &squares, 49, 7);
    assert_eq!(sums[&hash(50)].as_slice(), &[7]);
    assert_eq!(sums[&hash(74)].as_slice(), &[7]);
    assert_eq!(sums.len(), 2);
    record_sums_for_class(&mut sums, &squares, 25, 5);
    assert_eq!(sums[&hash(50)].as_slice(), &[7, 5]);
    assert_eq!(sums[&hash(74)].as_slice(), &[7, 5]);
}

#[test]
fn centers_wait_until_the_square_reaches_their_double() {
    let mut sums: [NoHashMap<u64, SharedVec>; 3] = [NoHashMap::default(), NoHashMap::default(), NoHashMap::default()];
    let mut centers = VecDeque::new();
    add_center(&mut sums, &mut centers, 5);
    assert_eq!(centers, VecDeque::from(vec![5]));
    let class = residue_class(50);
    assert!(sums[class].contains_key(&hash(50)));
    assert_eq!(pop_ready_center(&mut centers, 49), None);
    assert_eq!(centers.len(), 1);
    assert_eq!(pop_ready_center(&mut centers, 50), Some(5));
    assert!(centers.is_empty());
    assert_eq!(pop_ready_center(&mut centers, 1_000), None);
}

#[test]
fn check_pair_finds_the_known_square() {
    let squares: NoHashSet<u64> = [83_521u64, 277_729, 529, 139_129, 319_225, 180_625, 42_025].into_iter().collect();
    let sums: [NoHashMap<u64, SharedVec>; 3] = [NoHashMap::default(), NoHashMap::default(), NoHashMap::default()];
    let found = check_pair(&squares, &sums, 180_625, 373, 565);
    assert_eq!(found, vec![[139_129, 83_521, 319_225, 360_721, 180_625, 529, 42_025, 277_729, 222_121]]);
}

#[test]
fn check_pair_without_squares_finds_nothing() {
    let squares: NoHashSet<u64> = NoHashSet::default();
    let sums: [NoHashMap<u64, SharedVec>; 3] = [NoHashMap::default(), NoHashMap::default(), NoHashMap::default()];
    assert!(check_pair(&squares, &sums, 180_625, 373, 565).is_empty());
}

#[test]
fn checkpoint_positions() {
    assert_eq!(start_position(), (CHECKPOINT_FREQUENCY, 1));
    assert_eq!(resume_position(CHECKPOINT_FREQUENCY, 41), (2 * CHECKPOINT_FREQUENCY, 42));
}

#[test]
fn center_numbers_reads_the_completing_class() {
    let mut sums_by_class: [NoHashMap<u64, SharedVec>; 3] = Default::default();
    let mut centers = VecDeque::new();
    add_center(&mut sums_by_class, &mut centers, 5);
    assert_eq!(center_numbers(&sums_by_class, 5), Some(&[][..]));
    // 7^2 + 1^2 = 50, twice the square of 5: listed in the class of 50.
    record_sums_for_class(&mut sums_by_class[2], &vec![1u64], 49, 7);
    assert_eq!(center_numbers(&sums_by_class, 5), Some(&[7u32][..]));
    assert_eq!(center_numbers(&sums_by_class, 7), None);
}

#[test]
fn record_square_joins_its_class() {
    let mut squares: NoHashSet<u64> = NoHashSet::default();
    let mut squares_by_class: [Vec<u64>; 3] = Default::default();
    record_square(&mut squares, &mut squares_by_class, 25);
    record_square(&mut squares, &mut squares_by_class, 49);
    record_square(&mut squares, &mut squares_by_class, 169);
    assert!(squares.contains(&25) && squares.contains(&49) && squares.contains(&169));
    assert_eq!(squares.len(), 3);
    assert_eq!(squares_by_class[0], Vec::<u64>::new());
    assert_eq!(squares_by_class[1], vec![25, 169]);
    assert_eq!(squares_by_class[2], vec![49]);
}

#[test]
fn record_sums_through_full_chunks_and_the_rest() {
    // 130 values: two full chunks of 64 and a rest of 2.
    let squares: Vec<u64> = (0..130u64).map(|i| 24 * i + 1).collect();
    let mut sums: NoHashMap<u64, SharedVec> = NoHashMap::default();
    for &s in &[squares[3], squares[70], squares[129]] {
        sums.insert(hash(49 + s), SharedVec::default());
    }
    sums.insert(hash(1), SharedVec::default());
    record_sums_for_class(&mut sums, &squares, 49, 7);
    for &s in &[squares[3], squares[70], squares[129]] {
        assert_eq!(sums[&hash(49 + s)].as_slice(), &[7]);
    }
    assert!(sums[&hash(1)].as_slice().is_empty());
    assert_eq!(sums.len(), 4);
}

#[test]
fn center_lists_hold_every_completing_number() {
    let mut squares: NoHashSet<u64> = NoHashSet::default();
    let mut squares_by_class: [Vec<u64>; 3] = Default::default();
    let mut sums_by_class: [NoHashMap<u64, SharedVec>; 3] = Default::default();
    let mut centers = VecDeque::new();
    for number in 1u32..=40 {
        let square = number as u64 * number as u64;
        if !passes_residue_filter(square) {
            continue;
        }
        add_center(&mut sums_by_class, &mut centers, number);
        let class = residue_class(square);
        for i in 0..3 {
            let list = squares_by_class[pair_class(class, i)].clone();
            record_sums_for_class(&mut sums_by_class[i], &list, square, number);
        }
        record_square(&mut squares, &mut squares_by_class, square);
    }
    // 1^2 + 7^2 = 2 * 5^2; 17^2 + 31^2 = 5^2 + 35^2 = 2 * 25^2
    assert_eq!(center_numbers(&sums_by_class, 5), Some(&[7u32][..]));
    assert_eq!(center_numbers(&sums_by_class, 25), Some(&[31u32, 35][..]));
    assert_eq!(center_numbers(&sums_by_class, 1), Some(&[][..]));
}
