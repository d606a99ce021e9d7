use crate::hashing::{
    parallel_hash, SIMD_LANES, spec_unhash, hash, nohash_map_get, nohash_map_get_mut, nohash_map_insert, nohash_set_insert, spec_hash, NoHashMap, NoHashSet,
};
use crate::patterns::{
    check_pattern_2, check_pattern_5, check_patterns_3_4_and_6, is_magic_grid, pattern_2_fits,
    pattern_2_result, pattern_3_4_6_fits, pattern_3_4_6_result, pattern_5_fits, pattern_5_grids,
    pattern_5_numbers, Cell,
};
use crate::primes::{
    allowed_prime, is_prime_factorization, lemma_factorization_decides_prime_divisors, prime_divisors_allowed,
};
use crate::shared_vec::SharedVec;
use primal::Sieve;
use std::collections::VecDeque;
use vstd::prelude::*;

verus! {

/// The squares below which the search writes a checkpoint grow by this much
/// from one checkpoint to the next.
pub const CHECKPOINT_FREQUENCY: u64 = 10_000_000_000_000;

/// Whether the search keeps only numbers whose prime factors are all 1, 5
/// or 7 modulo 8.
pub const FILTER_BY_PRIMES: bool = true;

/// The class of a value among the residues 1, 25 and 49 modulo 72 that the
/// squares of the search take: its residue modulo 72, divided by 24.
pub open spec fn spec_residue_class(value: u64) -> int {
    (value as int % 72) / 24
}

/// The class of `value`: its residue modulo 72, divided by 24.
pub fn residue_class(value: u64) -> (class: usize)
    ensures
        class == spec_residue_class(value),
        class < 3,
{
    (value % 72 / 24) as usize
}

/// The class of the sums that complete a center square of class
/// `center_class` to its own double.
pub fn complement_class(center_class: usize) -> (class: usize)
    requires
        center_class < 3,
    ensures
        class == (6 - center_class) % 3,
        class < 3,
{
    (6 - center_class) % 3
}

/// The class of the squares that, added to a square of class
/// `square_class`, give a sum of class `sum_class`.
pub fn pair_class(square_class: usize, sum_class: usize) -> (class: usize)
    requires
        square_class < 3,
        sum_class < 3,
    ensures
        class == (6 - square_class + sum_class) % 3,
        class < 3,
{
    (6 - square_class + sum_class) % 3
}

/// The square is 1 modulo 24, as every cell of the squares searched for.
pub fn passes_residue_filter(square: u64) -> (passes: bool)
    ensures
        passes == (square % 24 == 1),
{
    square % 24 == 1
}

/// Squares of the search fall into the three classes: a value that is 1
/// modulo 24 is 1, 25 or 49 modulo 72.
pub proof fn lemma_classes_of_squares(value: u64)
    requires
        value % 24 == 1,
    ensures
        value % 72 == 1 + 24 * spec_residue_class(value),
{
}

/// Splitting the squares into classes loses no sum: for two values that are
/// 1 modulo 24, the sum has class `sum_class` exactly when the second value
/// has the class `pair_class` gives for the first one's class and
/// `sum_class`.
pub proof fn lemma_pair_class_exact(first: u64, second: u64, sum_class: int)
    requires
        first % 24 == 1,
        second % 24 == 1,
        first + second <= u64::MAX,
        0 <= sum_class < 3,
    ensures
        spec_residue_class((first + second) as u64) == sum_class <==> spec_residue_class(second) == (6
            - spec_residue_class(first) + sum_class) % 3,
{
    let a = spec_residue_class(first);
    let b = spec_residue_class(second);
    lemma_classes_of_squares(first);
    lemma_classes_of_squares(second);
    vstd::arithmetic::div_mod::lemma_add_mod_noop(first as int, second as int, 72);
    assert((first + second) % 72 == (2 + 24 * a + 24 * b) % 72);
    assert(0 <= a < 3 && 0 <= b < 3);
    if a == 0 && b == 0 {
    } else if a == 0 && b == 1 {
    } else if a == 0 && b == 2 {
    } else if a == 1 && b == 0 {
    } else if a == 1 && b == 1 {
    } else if a == 1 && b == 2 {
    } else if a == 2 && b == 0 {
    } else if a == 2 && b == 1 {
    } else {
    }
}

/// The double of a center square that is 1 modulo 24 has the class that
/// `complement_class` gives for the center's class, so the sums that make
/// up that double are looked for in that class.
pub proof fn lemma_complement_class_exact(center_square: u64)
    requires
        center_square % 24 == 1,
        2 * center_square <= u64::MAX,
    ensures
        spec_residue_class((2 * center_square) as u64) == (6 - spec_residue_class(center_square)) % 3,
{
}

/// The magic sum of a square whose center is 1 modulo 24 is 3 modulo 72.
pub proof fn lemma_magic_sum_residue(center_square: u64)
    requires
        center_square % 24 == 1,
        3 * center_square <= u64::MAX,
    ensures
        (3 * center_square) % 72 == 3,
{
}

/// The prime sieve of the `primal` crate.
#[verifier::external_type_specification]
#[verifier::external_body]
pub struct ExSieve(Sieve);

/// The limit that a sieve was made with: every number up to it has its
/// primes sieved.
pub uninterp spec fn sieve_limit(sieve: Sieve) -> usize;

/// `Sieve::new`: a sieve of the primes up to `limit`, which it records.
#[verifier::external_body]
fn new_sieve(limit: usize) -> (sieve: Sieve)
    ensures
        sieve_limit(sieve) == limit,
{
    Sieve::new(limit)
}

/// `Sieve::factor`: the factorization of `number` into (prime, exponent)
/// pairs, primes in increasing order; `None` where the sieve cannot factor
/// it. Zero is never factored; every number from 1 up to the sieve's limit
/// is (the sieve's upper bound is at least its limit, and the crate
/// factors every number up to the square of that bound). Which larger
/// numbers are factored depends on how far past its limit the sieve goes,
/// which this contract leaves unsaid.
#[verifier::external_body]
fn sieve_factor(sieve: &Sieve, number: usize) -> (factors: Option<Vec<(usize, usize)>>)
    ensures
        number == 0 ==> factors.is_none(),
        1 <= number <= sieve_limit(*sieve) ==> factors.is_some(),
        number == 1 ==> factors.is_some() && factors.unwrap()@.len() == 0,
        factors.is_some() ==> is_prime_factorization(factors.unwrap()@, number as int),
{
    sieve.factor(number).ok()
}

/// The sieve of the search: up to the largest `u32` where the search
/// filters by primes, else an empty one.
pub fn search_sieve() -> (sieve: Sieve)
    ensures
        sieve_limit(sieve) == if FILTER_BY_PRIMES { u32::MAX as usize } else { 0usize },
{
    new_sieve(if FILTER_BY_PRIMES { u32::MAX as usize } else { 0 })
}

/// Every prime of the factorization is 1, 5 or 7 modulo 8.
pub fn primes_allowed(factors: &[(usize, usize)]) -> (allowed: bool)
    ensures
        allowed == forall|k: int| 0 <= k < factors@.len() ==> allowed_prime(#[trigger] factors@[k].0 as int),
{
    let mut k: usize = 0;
    while k < factors.len()
        invariant
            0 <= k <= factors@.len(),
            forall|j: int| 0 <= j < k ==> allowed_prime(#[trigger] factors@[j].0 as int),
        decreases factors.len() - k,
    {
        let r = factors[k].0 % 8;
        if !(r == 1 || r == 5 || r == 7) {
            return false;
        }
        k = k + 1;
    }
    true
}

/// Whether every prime factor of `number` is 1, 5 or 7 modulo 8, as the
/// sieve factors it: an answer for every number from 1 up to the sieve's
/// limit; `None` for zero and where the sieve cannot factor `number`.
pub fn passes_prime_filter(sieve: &Sieve, number: u32) -> (passes: Option<bool>)
    ensures
        number == 0 ==> passes is None,
        1 <= number <= sieve_limit(*sieve) ==> passes is Some,
        number == 1 ==> passes == Some(true),
        passes matches Some(b) ==> b == prime_divisors_allowed(number as int),
{
    match sieve_factor(sieve, number as usize) {
        Some(factors) => {
            let allowed = primes_allowed(factors.as_slice());
            proof {
                lemma_factorization_decides_prime_divisors(factors@, number as int);
            }
            Some(allowed)
        },
        None => None,
    }
}

/// The lists of a sum table, as sequences.
pub open spec fn table_lists(sums: NoHashMap<u64, SharedVec>) -> Map<u64, Seq<u32>> {
    sums@.map_values(|list: SharedVec| list@)
}

/// The lists after recording `number` under each sum of `square` and one
/// of `squares` that the table holds, in the order of `squares`.
pub open spec fn recorded(lists: Map<u64, Seq<u32>>, squares: Seq<u64>, square: u64, number: u32) -> Map<
    u64,
    Seq<u32>,
>
    decreases squares.len(),
{
    if squares.len() == 0 {
        lists
    } else {
        let earlier = recorded(lists, squares.drop_last(), square, number);
        let key = spec_hash((square + squares.last()) as u64);
        if earlier.contains_key(key) {
            earlier.insert(key, earlier[key].push(number))
        } else {
            earlier
        }
    }
}

/// How many of `squares` add up to `sum` with `square`.
pub open spec fn completing_count(squares: Seq<u64>, square: u64, sum: u64) -> nat
    decreases squares.len(),
{
    if squares.len() == 0 {
        0
    } else {
        completing_count(squares.drop_last(), square, sum) + if square + squares.last() == sum {
            1nat
        } else {
            0nat
        }
    }
}

/// Recording `number` under the sums of its square `square` with `squares`
/// appends it to the list of a sum `sum` once for each of `squares` that
/// completes `square` to `sum`, and keeps which sums are listed.
pub proof fn lemma_recorded_sum(lists: Map<u64, Seq<u32>>, squares: Seq<u64>, square: u64, number: u32, sum: u64)
    requires
        lists.contains_key(spec_hash(sum)),
        forall|k: int| 0 <= k < squares.len() ==> square + #[trigger] squares[k] <= u64::MAX,
    ensures
        recorded(lists, squares, square, number).dom() == lists.dom(),
        recorded(lists, squares, square, number)[spec_hash(sum)] == lists[spec_hash(sum)] + Seq::new(
            completing_count(squares, square, sum),
            |i: int| number,
        ),
    decreases squares.len(),
{
    let key = spec_hash(sum);
    if squares.len() == 0 {
        assert(lists[key] + Seq::new(0, |i: int| number) =~= lists[key]);
    } else {
        let rest = squares.drop_last();
        assert forall|k: int| 0 <= k < rest.len() implies square + #[trigger] rest[k] <= u64::MAX by {
            assert(rest[k] == squares[k]);
        }
        lemma_recorded_sum(lists, rest, square, number, sum);
        let earlier = recorded(lists, rest, square, number);
        let last_sum = (square + squares.last()) as u64;
        assert(square + squares[squares.len() - 1] <= u64::MAX);
        crate::hashing::lemma_hash_injective(last_sum, sum);
        let c = completing_count(rest, square, sum);
        if spec_hash(last_sum) == key {
            assert(Seq::new(c, |i: int| number).push(number) =~= Seq::new(c + 1, |i: int| number));
            assert(earlier[key].push(number) =~= lists[key] + Seq::new(c + 1, |i: int| number));
            assert(earlier.insert(key, earlier[key].push(number)).dom() =~= lists.dom());
        } else {
            if earlier.contains_key(spec_hash(last_sum)) {
                assert(earlier.insert(spec_hash(last_sum), earlier[spec_hash(last_sum)].push(number)).dom()
                    =~= lists.dom());
            }
        }
    }
}

/// Every number listed under a key has a square no bigger than the sum
/// whose hash the key is.
pub open spec fn lists_within(lists: Map<u64, Seq<u32>>) -> bool {
    forall|key: u64, i: int|
        lists.contains_key(key) && 0 <= i < lists[key].len() ==> #[trigger] lists[key][i] * lists[key][i]
            <= spec_unhash(key)
}

/// Every list of the three sum tables keeps within its sum.
pub open spec fn sums_within(sums_by_class: [NoHashMap<u64, SharedVec>; 3]) -> bool {
    &&& lists_within(table_lists(sums_by_class[0]))
    &&& lists_within(table_lists(sums_by_class[1]))
    &&& lists_within(table_lists(sums_by_class[2]))
}

/// Recording a number under the sums of its square with other squares
/// keeps every list within its sum: the number's square is part of each
/// such sum.
pub proof fn lemma_recorded_within(lists: Map<u64, Seq<u32>>, squares: Seq<u64>, square: u64, number: u32)
    requires
        lists_within(lists),
        square == number * number,
        forall|k: int| 0 <= k < squares.len() ==> square + #[trigger] squares[k] <= u64::MAX,
    ensures
        lists_within(recorded(lists, squares, square, number)),
    decreases squares.len(),
{
    if squares.len() > 0 {
        let rest = squares.drop_last();
        assert forall|k: int| 0 <= k < rest.len() implies square + #[trigger] rest[k] <= u64::MAX by {
            assert(rest[k] == squares[k]);
        }
        lemma_recorded_within(lists, rest, square, number);
        let earlier = recorded(lists, rest, square, number);
        assert(square + squares[squares.len() - 1] <= u64::MAX);
        let sum = (square + squares.last()) as u64;
        let key = spec_hash(sum);
        crate::hashing::lemma_unhash(sum);
        if earlier.contains_key(key) {
            let after = earlier.insert(key, earlier[key].push(number));
            assert forall|k: u64, i: int| after.contains_key(k) && 0 <= i < after[k].len() implies #[trigger] after[k][i]
                * after[k][i] <= spec_unhash(k) by {
                if k == key && i == earlier[key].len() {
                    assert(after[k][i] == number);
                } else if k == key {
                    assert(after[k][i] == earlier[k][i]);
                }
            }
        }
    }
}

/// Appends `number` to the list under `key`, where the table holds one.
fn record_under(sums: &mut NoHashMap<u64, SharedVec>, key: u64, number: u32)
    ensures
        table_lists(*final(sums)) == if old(sums)@.contains_key(key) {
            table_lists(*old(sums)).insert(key, table_lists(*old(sums))[key].push(number))
        } else {
            table_lists(*old(sums))
        },
        final(sums)@.dom() == old(sums)@.dom(),
{
    let ghost before = *sums;
    match nohash_map_get_mut(sums, key) {
        Some(list) => {
            list.push(number);
        },
        None => {},
    }
    proof {
        if before@.contains_key(key) {
            assert(table_lists(*sums) =~= table_lists(before).insert(key, table_lists(before)[key].push(number)));
            assert(sums@.dom() =~= before@.dom());
        } else {
            assert(table_lists(*sums) =~= table_lists(before));
        }
    }
}

/// Records `number`, whose square is `square`, under each sum of `square`
/// and one of `squares` that the table holds. The sums are hashed
/// `SIMD_LANES` at a time with `parallel_hash`, the last few one by one.
pub fn record_sums_for_class(sums: &mut NoHashMap<u64, SharedVec>, squares: &Vec<u64>, square: u64, number: u32)
    requires
        forall|k: int| 0 <= k < squares@.len() ==> square + #[trigger] squares@[k] <= u64::MAX,
    ensures
        table_lists(*final(sums)) == recorded(table_lists(*old(sums)), squares@, square, number),
        final(sums)@.dom() == old(sums)@.dom(),
        lists_within(table_lists(*old(sums))) && square == number * number ==> lists_within(table_lists(*final(sums))),
{
    let count = squares.len();
    let chunked = count - count % SIMD_LANES;
    let mut k: usize = 0;
    while k < chunked
        invariant
            count == squares@.len(),
            chunked <= count,
            chunked % SIMD_LANES == 0,
            k % SIMD_LANES == 0,
            0 <= k <= chunked,
            forall|x: int| 0 <= x < squares@.len() ==> square + #[trigger] squares@[x] <= u64::MAX,
            table_lists(*sums) == recorded(table_lists(*old(sums)), squares@.take(k as int), square, number),
            sums@.dom() == old(sums)@.dom(),
        decreases chunked - k,
    {
        let mut lanes = [0u64; 64];
        let mut l: usize = 0;
        while l < SIMD_LANES
            invariant
                count == squares@.len(),
                k + SIMD_LANES <= chunked <= count,
                0 <= l <= SIMD_LANES,
                forall|x: int| 0 <= x < squares@.len() ==> square + #[trigger] squares@[x] <= u64::MAX,
                forall|m: int| 0 <= m < l ==> lanes[m] == square + squares@[k + m],
            decreases SIMD_LANES - l,
        {
            proof {
                assert(square + squares@[k + l] <= u64::MAX);
            }
            lanes[l] = square + squares[k + l];
            l = l + 1;
        }
        let hashes = parallel_hash(lanes);
        let mut l: usize = 0;
        while l < SIMD_LANES
            invariant
                count == squares@.len(),
                k + SIMD_LANES <= chunked <= count,
                0 <= l <= SIMD_LANES,
                forall|x: int| 0 <= x < squares@.len() ==> square + #[trigger] squares@[x] <= u64::MAX,
                forall|m: int| 0 <= m < SIMD_LANES ==> lanes[m] == square + squares@[k + m],
                forall|m: int| 0 <= m < SIMD_LANES ==> hashes[m] == spec_hash(#[trigger] lanes[m]),
                table_lists(*sums) == recorded(table_lists(*old(sums)), squares@.take(k + l), square, number),
                sums@.dom() == old(sums)@.dom(),
            decreases SIMD_LANES - l,
        {
            proof {
                assert(squares@.take(k + l + 1).drop_last() =~= squares@.take(k + l));
                assert(squares@.take(k + l + 1).last() == squares@[k + l]);
                assert(hashes[l as int] == spec_hash(lanes[l as int]));
            }
            record_under(sums, hashes[l], number);
            l = l + 1;
        }
        k = k + SIMD_LANES;
    }
    while k < count
        invariant
            count == squares@.len(),
            0 <= k <= count,
            forall|x: int| 0 <= x < squares@.len() ==> square + #[trigger] squares@[x] <= u64::MAX,
            table_lists(*sums) == recorded(table_lists(*old(sums)), squares@.take(k as int), square, number),
            sums@.dom() == old(sums)@.dom(),
        decreases count - k,
    {
        let square2 = squares[k];
        proof {
            assert(square + squares@[k as int] <= u64::MAX);
            assert(squares@.take(k + 1).drop_last() =~= squares@.take(k as int));
        }
        record_under(sums, hash(square + square2), number);
        k = k + 1;
    }
    proof {
        assert(squares@.take(squares@.len() as int) =~= squares@);
        if lists_within(table_lists(*old(sums))) && square == number * number {
            lemma_recorded_within(table_lists(*old(sums)), squares@, square, number);
        }
    }
}

/// Appends the number as a new center: its doubled square gets an empty
/// list in the sum table of its class, and the number joins the centers
/// waiting to be checked.
pub fn add_center(sums_by_class: &mut [NoHashMap<u64, SharedVec>; 3], centers: &mut VecDeque<u32>, number: u32)
    requires
        2 * (number * number) <= u64::MAX,
    ensures
        ({
            let center_sum = (2 * (number * number)) as u64;
            let class = spec_residue_class(center_sum);
            &&& table_lists(final(sums_by_class)[class]) == table_lists(old(sums_by_class)[class]).insert(
                spec_hash(center_sum),
                Seq::empty(),
            )
            &&& forall|c: int| 0 <= c < 3 && c != class ==> #[trigger] final(sums_by_class)[c] == old(sums_by_class)[c]
        }),
        final(centers)@ == old(centers)@.push(number),
        sums_within(*old(sums_by_class)) ==> sums_within(*final(sums_by_class)),
{
    proof {
        assert((number as u64) * (number as u64) <= u64::MAX) by (nonlinear_arith)
            requires
                number <= u32::MAX,
        ;
    }
    let square = number as u64 * number as u64;
    let center_sum = square + square;
    let class = residue_class(center_sum);
    let ghost before = sums_by_class[class as int];
    nohash_map_insert(&mut sums_by_class[class], hash(center_sum), SharedVec::default());
    proof {
        assert(table_lists(sums_by_class[class as int]) =~= table_lists(before).insert(spec_hash(center_sum), Seq::empty()));
        if lists_within(table_lists(before)) {
            let after = table_lists(sums_by_class[class as int]);
            assert forall|k: u64, i: int| after.contains_key(k) && 0 <= i < after[k].len() implies #[trigger] after[k][i]
                * after[k][i] <= spec_unhash(k) by {
                assert(k != spec_hash(center_sum));
                assert(after[k] == table_lists(before)[k]);
            }
        }
    }
    centers.push_back(number);
}

/// Records a square of the search: it joins the set of squares and the
/// list of its class.
pub fn record_square(squares: &mut NoHashSet<u64>, squares_by_class: &mut [Vec<u64>; 3], square: u64)
    ensures
        final(squares)@ == old(squares)@.insert(square),
        final(squares_by_class)[spec_residue_class(square)]@ == old(squares_by_class)[spec_residue_class(square)]@.push(square),
        forall|c: int| 0 <= c < 3 && c != spec_residue_class(square) ==> #[trigger] final(squares_by_class)[c] == old(squares_by_class)[c],
{
    nohash_set_insert(squares, square);
    let class = residue_class(square);
    squares_by_class[class].push(square);
}

/// Takes the first waiting center off the queue once the current square
/// has reached its doubled square, since no later square can pair up to a
/// sum below that; `None`, and no change, otherwise.
pub fn pop_ready_center(centers: &mut VecDeque<u32>, square: u64) -> (center: Option<u32>)
    requires
        old(centers)@.len() > 0 ==> 2 * (old(centers)@[0] * old(centers)@[0]) <= u64::MAX,
    ensures
        old(centers)@.len() > 0 && 2 * (old(centers)@[0] * old(centers)@[0]) <= square ==> {
            &&& center == Some(old(centers)@[0])
            &&& final(centers)@ == old(centers)@.drop_first()
        },
        !(old(centers)@.len() > 0 && 2 * (old(centers)@[0] * old(centers)@[0]) <= square) ==> {
            &&& center is None
            &&& final(centers)@ == old(centers)@
        },
{
    if centers.len() == 0 {
        return None;
    }
    let center = centers[0];
    proof {
        assert((center as u64) * (center as u64) <= u64::MAX) by (nonlinear_arith)
            requires
                center <= u32::MAX,
        ;
    }
    let center_square = center as u64 * center as u64;
    let center_sum = center_square + center_square;
    if center_sum > square {
        return None;
    }
    centers.pop_front();
    Some(center)
}

/// The numbers listed under the doubled square of `center`, in the sum
/// table of the class that completes a center of its class; `None` where
/// that table holds no such sum.
pub fn center_numbers(sums_by_class: &[NoHashMap<u64, SharedVec>; 3], center: u32) -> (numbers: Option<&[u32]>)
    requires
        2 * (center * center) <= u64::MAX,
    ensures
        ({
            let center_square = (center * center) as u64;
            let table = sums_by_class[(6 - spec_residue_class(center_square)) % 3]@;
            let key = spec_hash((2 * center_square) as u64);
            match numbers {
                Some(list) => table.contains_key(key) && list@ == table[key]@,
                None => !table.contains_key(key),
            }
        }),
        sums_within(*sums_by_class) ==> (numbers matches Some(list) ==> forall|i: int|
            0 <= i < list@.len() ==> #[trigger] list@[i] * list@[i] <= 2 * (center * center)),
{
    proof {
        assert((center as u64) * (center as u64) <= u64::MAX) by (nonlinear_arith)
            requires
                center <= u32::MAX,
        ;
    }
    let center_square = center as u64 * center as u64;
    let center_sum = center_square + center_square;
    let class = complement_class(residue_class(center_square));
    let found = nohash_map_get(&sums_by_class[class], hash(center_sum));
    proof {
        crate::hashing::lemma_unhash(center_sum);
        let key = spec_hash(center_sum);
        if sums_within(*sums_by_class) && found is Some {
            let lists = table_lists(sums_by_class[class as int]);
            assert(lists_within(lists));
            assert(lists.contains_key(key));
            assert(lists[key] == found.unwrap()@);
            assert forall|i: int| 0 <= i < found.unwrap()@.len() implies #[trigger] found.unwrap()@[i]
                * found.unwrap()@[i] <= 2 * (center * center) by {
                assert(lists[key][i] == found.unwrap()@[i]);
            }
        }
    }
    match found {
        Some(list) => Some(list.as_slice()),
        None => None,
    }
}

/// The five cells that a pair of listed numbers gives around a center: the
/// center, the squares of the two numbers and what each leaves of twice
/// the center, all of the magic sum three times the center.
pub open spec fn pair_cells(center_square: u64, number1: u32, number2: u32) -> (Cell, Cell, Cell, Cell, Cell) {
    let magic_sum = 3 * center_square;
    let square1 = number1 * number1;
    let square2 = number2 * number2;
    let rest1 = 2 * center_square - square1;
    let rest2 = 2 * center_square - square2;
    (
        Cell { value: center_square, magic_sum_minus_value: (magic_sum - center_square) as u64 },
        Cell { value: square1 as u64, magic_sum_minus_value: (magic_sum - square1) as u64 },
        Cell { value: rest1 as u64, magic_sum_minus_value: (magic_sum - rest1) as u64 },
        Cell { value: square2 as u64, magic_sum_minus_value: (magic_sum - square2) as u64 },
        Cell { value: rest2 as u64, magic_sum_minus_value: (magic_sum - rest2) as u64 },
    )
}

/// A found square, as a list of none or one.
pub open spec fn optional_grid(grid: Option<Seq<u64>>) -> Seq<Seq<u64>> {
    match grid {
        Some(g) => seq![g],
        None => Seq::empty(),
    }
}

/// The squares that the checks of one pair of numbers around a center find,
/// in the order of the checks: pattern 2, patterns 3, 4 and 6 with the
/// two pairs in either role and order, and pattern 5 with each of the four
/// outer cells on top.
#[verifier::opaque]
pub open spec fn pair_grids(
    squares: Set<u64>,
    sums_by_class: [NoHashMap<u64, SharedVec>; 3],
    center_square: u64,
    number1: u32,
    number2: u32,
) -> Seq<Seq<u64>> {
    let (center, cell1, cell2, cell3, cell4) = pair_cells(center_square, number1, number2);
    optional_grid(pattern_2_result(squares, center, cell1, cell2, cell3, cell4))
        + optional_grid(pattern_3_4_6_result(squares, center, cell1, cell2, cell3, cell4))
        + optional_grid(pattern_3_4_6_result(squares, center, cell1, cell2, cell4, cell3))
        + optional_grid(pattern_3_4_6_result(squares, center, cell3, cell4, cell1, cell2))
        + optional_grid(pattern_3_4_6_result(squares, center, cell3, cell4, cell2, cell1))
        + pattern_5_grids(center, cell1, cell2, cell3, cell4, pattern_5_numbers(sums_by_class, cell1))
        + pattern_5_grids(center, cell2, cell3, cell4, cell1, pattern_5_numbers(sums_by_class, cell2))
        + pattern_5_grids(center, cell3, cell4, cell1, cell2, pattern_5_numbers(sums_by_class, cell3))
        + pattern_5_grids(center, cell4, cell1, cell2, cell3, pattern_5_numbers(sums_by_class, cell4))
}

/// `grid` is a grid that one of the checks of a pair finds on its own:
/// pattern 2, patterns 3, 4 and 6 with the two pairs in either role and
/// order, or pattern 5 with any of the four outer cells on top.
pub open spec fn found_by_a_pattern(
    squares: Set<u64>,
    sums_by_class: [NoHashMap<u64, SharedVec>; 3],
    center_square: u64,
    number1: u32,
    number2: u32,
    grid: Seq<u64>,
) -> bool {
    let (center, cell1, cell2, cell3, cell4) = pair_cells(center_square, number1, number2);
    ||| pattern_2_result(squares, center, cell1, cell2, cell3, cell4) == Some(grid)
    ||| pattern_3_4_6_result(squares, center, cell1, cell2, cell3, cell4) == Some(grid)
    ||| pattern_3_4_6_result(squares, center, cell1, cell2, cell4, cell3) == Some(grid)
    ||| pattern_3_4_6_result(squares, center, cell3, cell4, cell1, cell2) == Some(grid)
    ||| pattern_3_4_6_result(squares, center, cell3, cell4, cell2, cell1) == Some(grid)
    ||| pattern_5_grids(center, cell1, cell2, cell3, cell4, pattern_5_numbers(sums_by_class, cell1)).contains(grid)
    ||| pattern_5_grids(center, cell2, cell3, cell4, cell1, pattern_5_numbers(sums_by_class, cell2)).contains(grid)
    ||| pattern_5_grids(center, cell3, cell4, cell1, cell2, pattern_5_numbers(sums_by_class, cell3)).contains(grid)
    ||| pattern_5_grids(center, cell4, cell1, cell2, cell3, pattern_5_numbers(sums_by_class, cell4)).contains(grid)
}

/// The checks of a pair miss nothing: every grid that one of its pattern
/// checks finds, in every arrangement and rotation, is among the grids of
/// the pair.
pub proof fn lemma_pair_grids_include_every_pattern(
    squares: Set<u64>,
    sums_by_class: [NoHashMap<u64, SharedVec>; 3],
    center_square: u64,
    number1: u32,
    number2: u32,
    grid: Seq<u64>,
)
    requires
        found_by_a_pattern(squares, sums_by_class, center_square, number1, number2, grid),
    ensures
        pair_grids(squares, sums_by_class, center_square, number1, number2).contains(grid),
{
    reveal(pair_grids);
    let (center, cell1, cell2, cell3, cell4) = pair_cells(center_square, number1, number2);
    let p0 = optional_grid(pattern_2_result(squares, center, cell1, cell2, cell3, cell4));
    let p1 = optional_grid(pattern_3_4_6_result(squares, center, cell1, cell2, cell3, cell4));
    let p2 = optional_grid(pattern_3_4_6_result(squares, center, cell1, cell2, cell4, cell3));
    let p3 = optional_grid(pattern_3_4_6_result(squares, center, cell3, cell4, cell1, cell2));
    let p4 = optional_grid(pattern_3_4_6_result(squares, center, cell3, cell4, cell2, cell1));
    let p5 = pattern_5_grids(center, cell1, cell2, cell3, cell4, pattern_5_numbers(sums_by_class, cell1));
    let p6 = pattern_5_grids(center, cell2, cell3, cell4, cell1, pattern_5_numbers(sums_by_class, cell2));
    let p7 = pattern_5_grids(center, cell3, cell4, cell1, cell2, pattern_5_numbers(sums_by_class, cell3));
    let p8 = pattern_5_grids(center, cell4, cell1, cell2, cell3, pattern_5_numbers(sums_by_class, cell4));
    assert(pair_grids(squares, sums_by_class, center_square, number1, number2) == p0 + p1 + p2 + p3 + p4 + p5 + p6 + p7
        + p8);
    assert(seq![grid].contains(grid)) by {
        assert(seq![grid][0] == grid);
    }
    lemma_concat_contains(p0, p1, grid);
    lemma_concat_contains(p0 + p1, p2, grid);
    lemma_concat_contains(p0 + p1 + p2, p3, grid);
    lemma_concat_contains(p0 + p1 + p2 + p3, p4, grid);
    lemma_concat_contains(p0 + p1 + p2 + p3 + p4, p5, grid);
    lemma_concat_contains(p0 + p1 + p2 + p3 + p4 + p5, p6, grid);
    lemma_concat_contains(p0 + p1 + p2 + p3 + p4 + p5 + p6, p7, grid);
    lemma_concat_contains(p0 + p1 + p2 + p3 + p4 + p5 + p6 + p7, p8, grid);
}

/// What either part holds, the two parts together hold.
proof fn lemma_concat_contains(a: Seq<Seq<u64>>, b: Seq<Seq<u64>>, x: Seq<u64>)
    ensures
        a.contains(x) || b.contains(x) ==> (a + b).contains(x),
{
    if a.contains(x) {
        let i = choose|i: int| 0 <= i < a.len() && a[i] == x;
        assert((a + b)[i] == x);
    } else if b.contains(x) {
        let i = choose|i: int| 0 <= i < b.len() && b[i] == x;
        assert((a + b)[a.len() + i] == x);
    }
}

/// No arithmetic in the checks of a pair wraps around.
#[verifier::opaque]
pub open spec fn pair_fits(
    squares: Set<u64>,
    sums_by_class: [NoHashMap<u64, SharedVec>; 3],
    center_square: u64,
    number1: u32,
    number2: u32,
) -> bool {
    let (center, cell1, cell2, cell3, cell4) = pair_cells(center_square, number1, number2);
    &&& pattern_2_fits(squares, center, cell1, cell2, cell3, cell4)
    &&& pattern_3_4_6_fits(squares, cell1, cell2, cell3, cell4)
    &&& pattern_3_4_6_fits(squares, cell1, cell2, cell4, cell3)
    &&& pattern_3_4_6_fits(squares, cell3, cell4, cell1, cell2)
    &&& pattern_3_4_6_fits(squares, cell3, cell4, cell2, cell1)
    &&& pattern_5_all_fit(sums_by_class, center, cell1, cell2, cell3, cell4)
    &&& pattern_5_all_fit(sums_by_class, center, cell2, cell3, cell4, cell1)
    &&& pattern_5_all_fit(sums_by_class, center, cell3, cell4, cell1, cell2)
    &&& pattern_5_all_fit(sums_by_class, center, cell4, cell1, cell2, cell3)
}

/// The arithmetic of pattern 5 fits on every number it will check.
pub open spec fn pattern_5_all_fit(
    sums_by_class: [NoHashMap<u64, SharedVec>; 3],
    center: Cell,
    top_middle: Cell,
    bottom_middle: Cell,
    middle_left: Cell,
    middle_right: Cell,
) -> bool {
    forall|k: int|
        0 <= k < pattern_5_numbers(sums_by_class, top_middle).len() ==> pattern_5_fits(
            center,
            top_middle,
            bottom_middle,
            middle_left,
            middle_right,
            #[trigger] pattern_5_numbers(sums_by_class, top_middle)[k],
        )
}

/// The cells of a pair, built as `pair_cells` describes.
fn build_pair_cells(center_square: u64, number1: u32, number2: u32) -> (cells: (Cell, Cell, Cell, Cell, Cell))
    requires
        3 * center_square <= u64::MAX,
        number1 * number1 <= 2 * center_square,
        number2 * number2 <= 2 * center_square,
    ensures
        cells == pair_cells(center_square, number1, number2),
{
    let center_sum = center_square + center_square;
    let magic_sum = center_sum + center_square;
    let center = Cell::new(center_square, magic_sum);
    let cell1 = Cell::new(number1 as u64 * number1 as u64, magic_sum);
    let cell2 = Cell::new(center_sum - cell1.value, magic_sum);
    let cell3 = Cell::new(number2 as u64 * number2 as u64, magic_sum);
    let cell4 = Cell::new(center_sum - cell3.value, magic_sum);
    (center, cell1, cell2, cell3, cell4)
}

/// The squares of a found-or-not check, appended.
fn push_found(found: &mut Vec<[u64; 9]>, grid: Option<[u64; 9]>)
    ensures
        final(found)@.map_values(|g: [u64; 9]| g@) == old(found)@.map_values(|g: [u64; 9]| g@)
            + optional_grid(crate::patterns::grid_view(grid)),
        final(found)@.len() >= old(found)@.len(),
        forall|k: int| 0 <= k < old(found)@.len() ==> #[trigger] final(found)@[k] == old(found)@[k],
        grid matches Some(g) ==> final(found)@.len() == old(found)@.len() + 1 && final(found)@.last() == g,
        grid is None ==> final(found)@ == old(found)@,
{
    match grid {
        Some(g) => {
            let ghost before = found@;
            found.push(g);
            proof {
                assert(found@.map_values(|g: [u64; 9]| g@) =~= before.map_values(|g: [u64; 9]| g@) + seq![g@]);
            }
        },
        None => {
            proof {
                assert(found@.map_values(|g: [u64; 9]| g@) =~= found@.map_values(|g: [u64; 9]| g@) + Seq::<Seq<u64>>::empty());
            }
        },
    }
}

/// Several found squares, appended.
fn append_found(found: &mut Vec<[u64; 9]>, more: Vec<[u64; 9]>)
    ensures
        final(found)@.map_values(|g: [u64; 9]| g@) == old(found)@.map_values(|g: [u64; 9]| g@) + more@.map_values(
            |g: [u64; 9]| g@,
        ),
        final(found)@ == old(found)@ + more@,
{
    let mut more = more;
    let ghost before = found@;
    found.append(&mut more);
    proof {
        assert(found@.map_values(|g: [u64; 9]| g@) =~= before.map_values(|g: [u64; 9]| g@) + (found@.subrange(
            before.len() as int,
            found@.len() as int,
        )).map_values(|g: [u64; 9]| g@));
    }
}

/// The cells around a center that a pair gives: all of the magic sum three
/// times the center, each pair of opposite cells adding up to twice it.
pub open spec fn pair_frame(center: Cell, cell1: Cell, cell2: Cell, cell3: Cell, cell4: Cell) -> bool {
    let magic_sum = 3 * center.value;
    &&& center.of_magic_sum(magic_sum)
    &&& cell1.of_magic_sum(magic_sum)
    &&& cell2.of_magic_sum(magic_sum)
    &&& cell3.of_magic_sum(magic_sum)
    &&& cell4.of_magic_sum(magic_sum)
    &&& cell1.value + cell2.value == 2 * center.value
    &&& cell3.value + cell4.value == 2 * center.value
}

/// Pattern 2 and patterns 3, 4 and 6 in their four arrangements.
fn check_square_patterns(squares: &NoHashSet<u64>, center: &Cell, cell1: &Cell, cell2: &Cell, cell3: &Cell, cell4: &Cell) -> (found: Vec<[u64; 9]>)
    ensures
        found@.map_values(|g: [u64; 9]| g@) == optional_grid(pattern_2_result(squares@, *center, *cell1, *cell2, *cell3, *cell4))
            + optional_grid(pattern_3_4_6_result(squares@, *center, *cell1, *cell2, *cell3, *cell4))
            + optional_grid(pattern_3_4_6_result(squares@, *center, *cell1, *cell2, *cell4, *cell3))
            + optional_grid(pattern_3_4_6_result(squares@, *center, *cell3, *cell4, *cell1, *cell2))
            + optional_grid(pattern_3_4_6_result(squares@, *center, *cell3, *cell4, *cell2, *cell1)),
        pair_frame(*center, *cell1, *cell2, *cell3, *cell4) && pattern_2_fits(squares@, *center, *cell1, *cell2, *cell3, *cell4)
            && pattern_3_4_6_fits(squares@, *cell1, *cell2, *cell3, *cell4)
            && pattern_3_4_6_fits(squares@, *cell1, *cell2, *cell4, *cell3)
            && pattern_3_4_6_fits(squares@, *cell3, *cell4, *cell1, *cell2)
            && pattern_3_4_6_fits(squares@, *cell3, *cell4, *cell2, *cell1) ==> forall|k: int|
            0 <= k < found@.len() ==> is_magic_grid(#[trigger] found@[k]@, 3 * center.value),
{
    let mut found: Vec<[u64; 9]> = Vec::new();
    proof {
        assert(found@.map_values(|g: [u64; 9]| g@) =~= Seq::<Seq<u64>>::empty());
    }
    push_found(&mut found, check_pattern_2(squares, center, cell1, cell2, cell3, cell4));
    push_found(&mut found, check_patterns_3_4_and_6(squares, center, cell1, cell2, cell3, cell4));
    push_found(&mut found, check_patterns_3_4_and_6(squares, center, cell1, cell2, cell4, cell3));
    push_found(&mut found, check_patterns_3_4_and_6(squares, center, cell3, cell4, cell1, cell2));
    push_found(&mut found, check_patterns_3_4_and_6(squares, center, cell3, cell4, cell2, cell1));
    found
}

/// Appending magic squares to magic squares gives magic squares.
proof fn lemma_append_magic(before: Seq<[u64; 9]>, added: Seq<[u64; 9]>, magic: int)
    requires
        forall|k: int| 0 <= k < before.len() ==> is_magic_grid(#[trigger] before[k]@, magic),
        forall|k: int| 0 <= k < added.len() ==> is_magic_grid(#[trigger] added[k]@, magic),
    ensures
        forall|k: int| 0 <= k < (before + added).len() ==> is_magic_grid(#[trigger] (before + added)[k]@, magic),
{
    assert forall|k: int| 0 <= k < (before + added).len() implies is_magic_grid(#[trigger] (before + added)[k]@, magic) by {
        if k < before.len() {
            assert((before + added)[k] == before[k]);
        } else {
            assert((before + added)[k] == added[k - before.len()]);
        }
    }
}

/// Pattern 5 with each of the four outer cells on top.
fn check_pattern_5_rotations(sums_by_class: &[NoHashMap<u64, SharedVec>; 3], center: &Cell, cell1: &Cell, cell2: &Cell, cell3: &Cell, cell4: &Cell) -> (found: Vec<[u64; 9]>)
    ensures
        found@.map_values(|g: [u64; 9]| g@) == pattern_5_grids(*center, *cell1, *cell2, *cell3, *cell4, pattern_5_numbers(*sums_by_class, *cell1))
            + pattern_5_grids(*center, *cell2, *cell3, *cell4, *cell1, pattern_5_numbers(*sums_by_class, *cell2))
            + pattern_5_grids(*center, *cell3, *cell4, *cell1, *cell2, pattern_5_numbers(*sums_by_class, *cell3))
            + pattern_5_grids(*center, *cell4, *cell1, *cell2, *cell3, pattern_5_numbers(*sums_by_class, *cell4)),
        pair_frame(*center, *cell1, *cell2, *cell3, *cell4) && pattern_5_all_fit(*sums_by_class, *center, *cell1, *cell2, *cell3, *cell4)
            && pattern_5_all_fit(*sums_by_class, *center, *cell2, *cell3, *cell4, *cell1)
            && pattern_5_all_fit(*sums_by_class, *center, *cell3, *cell4, *cell1, *cell2)
            && pattern_5_all_fit(*sums_by_class, *center, *cell4, *cell1, *cell2, *cell3) ==> forall|k: int|
            0 <= k < found@.len() ==> is_magic_grid(#[trigger] found@[k]@, 3 * center.value),
{
    let ghost magic = 3 * center.value;
    let ghost all_fit = pair_frame(*center, *cell1, *cell2, *cell3, *cell4) && pattern_5_all_fit(*sums_by_class, *center, *cell1, *cell2, *cell3, *cell4)
        && pattern_5_all_fit(*sums_by_class, *center, *cell2, *cell3, *cell4, *cell1)
        && pattern_5_all_fit(*sums_by_class, *center, *cell3, *cell4, *cell1, *cell2)
        && pattern_5_all_fit(*sums_by_class, *center, *cell4, *cell1, *cell2, *cell3);
    let mut found: Vec<[u64; 9]> = Vec::new();
    proof {
        assert(found@.map_values(|g: [u64; 9]| g@) =~= Seq::<Seq<u64>>::empty());
    }
    let more = check_pattern_5(sums_by_class, center, cell1, cell2, cell3, cell4);
    let ghost before = found@;
    let ghost added = more@;
    append_found(&mut found, more);
    proof {
        if all_fit {
            lemma_append_magic(before, added, magic);
        }
    }
    let more = check_pattern_5(sums_by_class, center, cell2, cell3, cell4, cell1);
    let ghost before = found@;
    let ghost added = more@;
    append_found(&mut found, more);
    proof {
        if all_fit {
            lemma_append_magic(before, added, magic);
        }
    }
    let more = check_pattern_5(sums_by_class, center, cell3, cell4, cell1, cell2);
    let ghost before = found@;
    let ghost added = more@;
    append_found(&mut found, more);
    proof {
        if all_fit {
            lemma_append_magic(before, added, magic);
        }
    }
    let more = check_pattern_5(sums_by_class, center, cell4, cell1, cell2, cell3);
    let ghost before = found@;
    let ghost added = more@;
    append_found(&mut found, more);
    proof {
        if all_fit {
            lemma_append_magic(before, added, magic);
        }
    }
    found
}

/// One of the found grids, as nine cells, is `grid`.
pub open spec fn holds_grid(found: Seq<[u64; 9]>, grid: Seq<u64>) -> bool {
    exists|i: int| 0 <= i < found.len() && #[trigger] found[i]@ == grid
}

/// Checks one pair of numbers listed under a center's doubled square:
/// pattern 2, patterns 3, 4 and 6 in four arrangements, and pattern 5 in
/// four rotations (see `pair_grids`). Where no arithmetic wraps around,
/// every square found is magic.
pub fn check_pair(
    squares: &NoHashSet<u64>,
    sums_by_class: &[NoHashMap<u64, SharedVec>; 3],
    center_square: u64,
    number1: u32,
    number2: u32,
) -> (found: Vec<[u64; 9]>)
    requires
        3 * center_square <= u64::MAX,
        number1 * number1 <= 2 * center_square,
        number2 * number2 <= 2 * center_square,
    ensures
        found@.map_values(|g: [u64; 9]| g@) == pair_grids(squares@, *sums_by_class, center_square, number1, number2),
        pair_fits(squares@, *sums_by_class, center_square, number1, number2) ==> forall|k: int|
            0 <= k < found@.len() ==> is_magic_grid(#[trigger] found@[k]@, 3 * center_square),
        forall|grid: Seq<u64>|
            #[trigger] found_by_a_pattern(squares@, *sums_by_class, center_square, number1, number2, grid) ==> holds_grid(
                found@,
                grid,
            ),
{
    let (center, cell1, cell2, cell3, cell4) = build_pair_cells(center_square, number1, number2);
    proof {
        assert(pair_frame(center, cell1, cell2, cell3, cell4));
    }
    let mut found = check_square_patterns(squares, &center, &cell1, &cell2, &cell3, &cell4);
    let ghost first = found@;
    let more = check_pattern_5_rotations(sums_by_class, &center, &cell1, &cell2, &cell3, &cell4);
    let ghost second = more@;
    append_found(&mut found, more);
    proof {
        if pair_fits(squares@, *sums_by_class, center_square, number1, number2) {
            reveal(pair_fits);
            assert(forall|k: int| 0 <= k < first.len() ==> is_magic_grid(#[trigger] first[k]@, 3 * center_square));
            assert(forall|k: int| 0 <= k < second.len() ==> is_magic_grid(#[trigger] second[k]@, 3 * center_square));
            lemma_append_magic(first, second, 3 * center_square);
        }
        reveal(pair_grids);
        assert(found@.map_values(|g: [u64; 9]| g@) =~= pair_grids(squares@, *sums_by_class, center_square, number1, number2));
        let views = found@.map_values(|g: [u64; 9]| g@);
        assert forall|grid: Seq<u64>|
            #[trigger] found_by_a_pattern(squares@, *sums_by_class, center_square, number1, number2, grid) implies holds_grid(
                found@,
                grid,
            ) by {
            lemma_pair_grids_include_every_pattern(squares@, *sums_by_class, center_square, number1, number2, grid);
            assert(views.contains(grid));
            let i = choose|i: int| 0 <= i < views.len() && views[i] == grid;
            assert(found@[i]@ == views[i]);
        }
    }
    found
}

/// Where a fresh search starts: the first checkpoint after one frequency,
/// and the number 1.
pub fn start_position() -> (position: (u64, u32))
    ensures
        position == (CHECKPOINT_FREQUENCY, 1u32),
{
    (CHECKPOINT_FREQUENCY, 1)
}

/// Where a search goes on from a checkpoint written at `number` with the
/// next checkpoint `checkpoint`: the checkpoint after that, and the next
/// number.
pub fn resume_position(checkpoint: u64, number: u32) -> (position: (u64, u32))
    requires
        checkpoint + CHECKPOINT_FREQUENCY <= u64::MAX,
        number < u32::MAX,
    ensures
        position == ((checkpoint + CHECKPOINT_FREQUENCY) as u64, (number + 1) as u32),
{
    (checkpoint + CHECKPOINT_FREQUENCY, number + 1)
}

} // verus!
