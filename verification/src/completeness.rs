use crate::hashing::{lemma_hash_injective, spec_hash};
use crate::hashing::NoHashMap;
use crate::search::{
    completing_count, lemma_complement_class_exact, lemma_pair_class_exact, lemma_recorded_sum, recorded,
    spec_residue_class, table_lists,
};
use crate::shared_vec::SharedVec;
use vstd::prelude::*;

verus! {

/// The squares of the numbers, in order.
pub open spec fn squares_of(numbers: Seq<u32>) -> Seq<u64> {
    numbers.map_values(|n: u32| (n * n) as u64)
}

/// `n` belongs in the list of the center `c`: it is bigger than the center,
/// and its square and the square of one of `numbers` add up to twice the
/// center's square.
pub open spec fn completes_center(numbers: Seq<u32>, c: u32, n: u32) -> bool {
    n > c && exists|m: u32| #[trigger] numbers.contains(m) && m * m + n * n == 2 * (c * c)
}

/// Every number of `numbers`, in order, that belongs in the list of the
/// center `c`.
pub open spec fn center_list(numbers: Seq<u32>, c: u32) -> Seq<u32> {
    numbers.filter(|n: u32| completes_center(numbers, c, n))
}

/// The numbers of a search: increasing, from 1 up, each square 1 modulo
/// 24, each doubled square within 64 bits.
pub open spec fn search_numbers(numbers: Seq<u32>) -> bool {
    &&& forall|j: int, k: int| 0 <= j < k < numbers.len() ==> #[trigger] numbers[j] < #[trigger] numbers[k]
    &&& forall|k: int|
        0 <= k < numbers.len() ==> 1 <= #[trigger] numbers[k] && (numbers[k] * numbers[k]) % 24 == 1 && 2 * (
        numbers[k] * numbers[k]) <= u64::MAX
}

/// The list under the center `c`'s doubled square, in the table of that
/// sum's class, holds exactly the numbers that belong in it.
pub open spec fn center_listed(lists: Seq<Map<u64, Seq<u32>>>, numbers: Seq<u32>, c: u32) -> bool {
    let sum = (2 * (c * c)) as u64;
    let table = lists[spec_residue_class(sum)];
    &&& table.contains_key(spec_hash(sum))
    &&& table[spec_hash(sum)] == center_list(numbers, c)
}

/// The state of a search after `numbers`: the lists of squares by class
/// hold exactly the squares of `numbers`, each once, in their class; and
/// every waiting center is one of `numbers` whose list is exact.
pub open spec fn search_exhaustive(
    numbers: Seq<u32>,
    squares_by_class: Seq<Seq<u64>>,
    lists: Seq<Map<u64, Seq<u32>>>,
    centers: Seq<u32>,
) -> bool {
    &&& search_numbers(numbers)
    &&& squares_by_class.len() == 3
    &&& lists.len() == 3
    &&& forall|i: int, s: u64|
        0 <= i < 3 ==> (#[trigger] squares_by_class[i].contains(s) <==> squares_of(numbers).contains(s)
            && spec_residue_class(s) == i)
    &&& forall|i: int| 0 <= i < 3 ==> (#[trigger] squares_by_class[i]).no_duplicates()
    &&& forall|k: int|
        0 <= k < centers.len() ==> numbers.contains(#[trigger] centers[k]) && center_listed(lists, numbers, centers[k])
}

proof fn lemma_square_lt(a: int, b: int)
    requires
        0 <= a < b,
    ensures
        a * a < b * b,
{
    assert(a * a < b * b) by (nonlinear_arith)
        requires
            0 <= a < b,
    ;
}

proof fn lemma_filter_congruent(s: Seq<u32>, p: spec_fn(u32) -> bool, q: spec_fn(u32) -> bool)
    requires
        forall|k: int| 0 <= k < s.len() ==> p(#[trigger] s[k]) == q(s[k]),
    ensures
        s.filter(p) == s.filter(q),
    decreases s.len(),
{
    if s.len() > 0 {
        let rest = s.drop_last();
        assert forall|k: int| 0 <= k < rest.len() implies p(#[trigger] rest[k]) == q(rest[k]) by {
            assert(rest[k] == s[k]);
        }
        lemma_filter_congruent(rest, p, q);
        assert(s =~= rest.push(s.last()));
        rest.lemma_filter_push(s.last(), p);
        rest.lemma_filter_push(s.last(), q);
        assert(p(s[s.len() - 1]) == q(s[s.len() - 1]));
    }
}

proof fn lemma_filter_none(s: Seq<u32>, p: spec_fn(u32) -> bool)
    requires
        forall|k: int| 0 <= k < s.len() ==> !p(#[trigger] s[k]),
    ensures
        s.filter(p) == Seq::<u32>::empty(),
    decreases s.len(),
{
    if s.len() > 0 {
        let rest = s.drop_last();
        assert forall|k: int| 0 <= k < rest.len() implies !p(#[trigger] rest[k]) by {
            assert(rest[k] == s[k]);
        }
        lemma_filter_none(rest, p);
        assert(s =~= rest.push(s.last()));
        rest.lemma_filter_push(s.last(), p);
        assert(!p(s[s.len() - 1]));
    } else {
        assert(s =~= Seq::<u32>::empty());
        Seq::<u32>::empty().lemma_filter_len(p);
    }
}

/// In a sequence without repeats, at most one value completes `square` to
/// `sum`.
proof fn lemma_completing_distinct(squares: Seq<u64>, square: u64, sum: u64)
    requires
        squares.no_duplicates(),
    ensures
        completing_count(squares, square, sum) == if exists|k: int|
            0 <= k < squares.len() && square + #[trigger] squares[k] == sum {
            1nat
        } else {
            0nat
        },
    decreases squares.len(),
{
    if squares.len() > 0 {
        let rest = squares.drop_last();
        assert(rest.no_duplicates());
        lemma_completing_distinct(rest, square, sum);
        if square + squares.last() == sum {
            assert(squares[squares.len() - 1] == squares.last());
            assert forall|k: int| 0 <= k < rest.len() implies square + #[trigger] rest[k] != sum by {
                assert(rest[k] == squares[k]);
            }
        } else {
            if exists|k: int| 0 <= k < squares.len() && square + #[trigger] squares[k] == sum {
                let k = choose|k: int| 0 <= k < squares.len() && square + #[trigger] squares[k] == sum;
                assert(k != squares.len() - 1);
                assert(rest[k] == squares[k]);
            }
            if exists|k: int| 0 <= k < rest.len() && square + #[trigger] rest[k] == sum {
                let k = choose|k: int| 0 <= k < rest.len() && square + #[trigger] rest[k] == sum;
                assert(rest[k] == squares[k]);
            }
        }
    }
}

/// A square of the search's numbers is the square of one of them.
proof fn lemma_square_of_number(numbers: Seq<u32>, s: u64)
    requires
        search_numbers(numbers),
        squares_of(numbers).contains(s),
    ensures
        exists|m: u32| #[trigger] numbers.contains(m) && m * m == s,
{
    let k = choose|k: int| 0 <= k < squares_of(numbers).len() && squares_of(numbers)[k] == s;
    let m = numbers[k];
    assert(numbers.contains(m));
    assert(2 * (m * m) <= u64::MAX);
}

/// The number `n`, bigger than all of `numbers`, joins the list of an
/// earlier center exactly where its square completes the center's doubled
/// square with an earlier square; the rest of the list stays.
proof fn lemma_center_list_push(numbers: Seq<u32>, n: u32, c: u32)
    requires
        search_numbers(numbers),
        forall|k: int| 0 <= k < numbers.len() ==> #[trigger] numbers[k] < n,
        c < n,
    ensures
        center_list(numbers.push(n), c) == if completes_center(numbers, c, n) {
            center_list(numbers, c).push(n)
        } else {
            center_list(numbers, c)
        },
{
    let longer = numbers.push(n);
    let p = |x: u32| completes_center(numbers, c, x);
    let q = |x: u32| completes_center(longer, c, x);
    lemma_square_lt(c as int, n as int);
    assert forall|k: int| 0 <= k < numbers.len() implies p(#[trigger] numbers[k]) == q(numbers[k]) by {
        let x = numbers[k];
        if q(x) {
            let m = choose|m: u32| #[trigger] longer.contains(m) && m * m + x * x == 2 * (c * c);
            if m == n {
                lemma_square_lt(c as int, x as int);
                assert(false);
            }
            let j = choose|j: int| 0 <= j < longer.len() && longer[j] == m;
            assert(j < numbers.len());
            assert(numbers[j] == m);
            assert(numbers.contains(m));
        }
        if p(x) {
            let m = choose|m: u32| #[trigger] numbers.contains(m) && m * m + x * x == 2 * (c * c);
            let j = choose|j: int| 0 <= j < numbers.len() && numbers[j] == m;
            assert(longer[j] == m);
            assert(longer.contains(m));
        }
    }
    lemma_filter_congruent(numbers, p, q);
    numbers.lemma_filter_push(n, q);
    if q(n) {
        let m = choose|m: u32| #[trigger] longer.contains(m) && m * m + n * n == 2 * (c * c);
        if m == n {
            assert(false);
        }
        let j = choose|j: int| 0 <= j < longer.len() && longer[j] == m;
        assert(numbers[j] == m);
        assert(numbers.contains(m));
    }
    if p(n) {
        let m = choose|m: u32| #[trigger] numbers.contains(m) && m * m + n * n == 2 * (c * c);
        let j = choose|j: int| 0 <= j < numbers.len() && numbers[j] == m;
        assert(longer[j] == m);
        assert(longer.contains(m));
    }
}

/// A fresh search satisfies the invariant.
pub proof fn lemma_fresh_search_exhaustive(lists: Seq<Map<u64, Seq<u32>>>)
    requires
        lists.len() == 3,
    ensures
        search_exhaustive(Seq::empty(), seq![Seq::<u64>::empty(), Seq::<u64>::empty(), Seq::<u64>::empty()], lists, Seq::empty()),
{
    let sq = seq![Seq::<u64>::empty(), Seq::<u64>::empty(), Seq::<u64>::empty()];
    assert forall|i: int, s: u64| 0 <= i < 3 implies (#[trigger] sq[i].contains(s) <==> squares_of(
        Seq::<u32>::empty(),
    ).contains(s) && spec_residue_class(s) == i) by {
        assert(sq[i] =~= Seq::<u64>::empty());
        assert(squares_of(Seq::<u32>::empty()) =~= Seq::<u64>::empty());
    }
    assert forall|i: int| 0 <= i < 3 implies (#[trigger] sq[i]).no_duplicates() by {
        assert(sq[i] =~= Seq::<u64>::empty());
    }
}

/// Taking waiting centers off the front of the queue keeps the invariant.
pub proof fn lemma_pop_keeps_exhaustive(
    numbers: Seq<u32>,
    squares_by_class: Seq<Seq<u64>>,
    lists: Seq<Map<u64, Seq<u32>>>,
    centers: Seq<u32>,
)
    requires
        search_exhaustive(numbers, squares_by_class, lists, centers),
        centers.len() > 0,
    ensures
        search_exhaustive(numbers, squares_by_class, lists, centers.drop_first()),
{
    assert forall|k: int| 0 <= k < centers.drop_first().len() implies numbers.contains(
        #[trigger] centers.drop_first()[k],
    ) && center_listed(lists, numbers, centers.drop_first()[k]) by {
        assert(centers.drop_first()[k] == centers[k + 1]);
    }
}

/// A center's list is final once the numbers reach its doubled square: a
/// number whose square is at least twice the center's square belongs in no
/// list of that center, nor helps another number into it.
pub proof fn lemma_center_list_final(numbers: Seq<u32>, later: u32, c: u32)
    requires
        forall|k: int| 0 <= k < numbers.len() ==> 1 <= #[trigger] numbers[k],
        2 * (c * c) <= later * later,
    ensures
        center_list(numbers.push(later), c) == center_list(numbers, c),
{
    let longer = numbers.push(later);
    let p = |x: u32| completes_center(numbers, c, x);
    let q = |x: u32| completes_center(longer, c, x);
    assert forall|k: int| 0 <= k < numbers.len() implies p(#[trigger] numbers[k]) == q(numbers[k]) by {
        let x = numbers[k];
        if q(x) {
            let m = choose|m: u32| #[trigger] longer.contains(m) && m * m + x * x == 2 * (c * c);
            let j = choose|j: int| 0 <= j < longer.len() && longer[j] == m;
            if j == numbers.len() {
                assert(1 <= x);
                assert(x * x >= 1) by (nonlinear_arith)
                    requires
                        1 <= x,
                ;
                assert(false);
            }
            assert(numbers[j] == m);
            assert(numbers.contains(m));
        }
        if p(x) {
            let m = choose|m: u32| #[trigger] numbers.contains(m) && m * m + x * x == 2 * (c * c);
            let j = choose|j: int| 0 <= j < numbers.len() && numbers[j] == m;
            assert(longer[j] == m);
            assert(longer.contains(m));
        }
    }
    lemma_filter_congruent(numbers, p, q);
    numbers.lemma_filter_push(later, q);
    if q(later) {
        let m = choose|m: u32| #[trigger] longer.contains(m) && m * m + later * later == 2 * (c * c);
        let j = choose|j: int| 0 <= j < longer.len() && longer[j] == m;
        if j < numbers.len() {
            assert(numbers[j] == m);
            assert(m * m >= 1) by (nonlinear_arith)
                requires
                    1 <= m,
            ;
        } else {
            assert(m == later);
            lemma_square_lt(c as int, later as int);
        }
        assert(false);
    }
}


/// One step of the search on the number `n`, as the library's operations
/// make it: `add_center` gives `n`'s doubled square an empty list
/// (`lists_centered`); `record_sums_for_class`, for each class, records `n`
/// under its sums with the squares of the class that completes it
/// (`lists_after`); `record_square` files `n`'s square in its class
/// (`squares_after`).
pub open spec fn search_step(
    n: u32,
    squares_before: Seq<Seq<u64>>,
    squares_after: Seq<Seq<u64>>,
    lists_before: Seq<Map<u64, Seq<u32>>>,
    lists_centered: Seq<Map<u64, Seq<u32>>>,
    lists_after: Seq<Map<u64, Seq<u32>>>,
) -> bool {
    let square = (n * n) as u64;
    let center_sum = (2 * (n * n)) as u64;
    let center_class = spec_residue_class(center_sum);
    let square_class = spec_residue_class(square);
    &&& lists_centered.len() == 3
    &&& lists_centered[center_class] == lists_before[center_class].insert(spec_hash(center_sum), Seq::empty())
    &&& forall|i: int| 0 <= i < 3 && i != center_class ==> #[trigger] lists_centered[i] == lists_before[i]
    &&& lists_after.len() == 3
    &&& forall|i: int|
        0 <= i < 3 ==> #[trigger] lists_after[i] == recorded(
            lists_centered[i],
            squares_before[(6 - square_class + i) % 3],
            square,
            n,
        )
    &&& squares_after.len() == 3
    &&& squares_after[square_class] == squares_before[square_class].push(square)
    &&& forall|i: int| 0 <= i < 3 && i != square_class ==> #[trigger] squares_after[i] == squares_before[i]
}

/// The step keeps the list of an earlier waiting center exact.
proof fn lemma_step_keeps_center(
    numbers: Seq<u32>,
    n: u32,
    squares_before: Seq<Seq<u64>>,
    squares_after: Seq<Seq<u64>>,
    lists_before: Seq<Map<u64, Seq<u32>>>,
    lists_centered: Seq<Map<u64, Seq<u32>>>,
    lists_after: Seq<Map<u64, Seq<u32>>>,
    c: u32,
)
    requires
        search_exhaustive(numbers, squares_before, lists_before, Seq::empty()),
        forall|k: int| 0 <= k < numbers.len() ==> #[trigger] numbers[k] < n,
        2 * (n * n) <= u64::MAX,
        (n * n) % 24 == 1,
        search_step(n, squares_before, squares_after, lists_before, lists_centered, lists_after),
        numbers.contains(c),
        center_listed(lists_before, numbers, c),
    ensures
        center_listed(lists_after, numbers.push(n), c),
{
    let square = (n * n) as u64;
    let center_sum = (2 * (n * n)) as u64;
    let sum = (2 * (c * c)) as u64;
    let i = spec_residue_class(sum);
    let key = spec_hash(sum);
    let ci = choose|x: int| 0 <= x < numbers.len() && numbers[x] == c;
    assert(numbers[ci] < n);
    lemma_square_lt(c as int, n as int);
    assert(2 * (c * c) <= u64::MAX);
    assert(0 <= i < 3);
    // the new center's key is another key
    lemma_hash_injective(sum, center_sum);
    assert(lists_centered[i].contains_key(key));
    assert(lists_centered[i][key] == lists_before[i][key]);
    let j = (6 - spec_residue_class(square) + i) % 3;
    let sq = squares_before[j];
    assert(0 <= j < 3);
    assert forall|k: int| 0 <= k < sq.len() implies square + #[trigger] sq[k] <= u64::MAX by {
        assert(sq.contains(sq[k]));
        assert(squares_before[j].contains(sq[k]));
        lemma_square_of_number(numbers, sq[k]);
        let m = choose|m: u32| #[trigger] numbers.contains(m) && m * m == sq[k];
        let mi = choose|x: int| 0 <= x < numbers.len() && numbers[x] == m;
        assert(numbers[mi] < n);
        lemma_square_lt(m as int, n as int);
    }
    lemma_recorded_sum(lists_centered[i], sq, square, n, sum);
    assert(lists_after[i] == recorded(lists_centered[i], sq, square, n));
    lemma_completing_distinct(sq, square, sum);
    let found = exists|k: int| 0 <= k < sq.len() && square + #[trigger] sq[k] == sum;
    if found {
        let k = choose|k: int| 0 <= k < sq.len() && square + #[trigger] sq[k] == sum;
        assert(sq.contains(sq[k]));
        assert(squares_before[j].contains(sq[k]));
        lemma_square_of_number(numbers, sq[k]);
        let m = choose|m: u32| #[trigger] numbers.contains(m) && m * m == sq[k];
        assert(m * m + n * n == 2 * (c * c));
        assert(completes_center(numbers, c, n));
    }
    if completes_center(numbers, c, n) {
        let m = choose|m: u32| #[trigger] numbers.contains(m) && m * m + n * n == 2 * (c * c);
        let mi = choose|x: int| 0 <= x < numbers.len() && numbers[x] == m;
        let s = (m * m) as u64;
        assert(2 * (m * m) <= u64::MAX);
        assert((m * m) % 24 == 1);
        assert(squares_of(numbers)[mi] == s);
        assert(squares_of(numbers).contains(s));
        lemma_pair_class_exact(square, s, i);
        assert((square + s) as u64 == sum);
        assert(spec_residue_class(s) == j);
        assert(squares_before[j].contains(s));
        let k = choose|k: int| 0 <= k < sq.len() && sq[k] == s;
        assert(square + sq[k] == sum);
    }
    lemma_center_list_push(numbers, n, c);
    if found {
        assert(center_list(numbers, c) + Seq::new(1, |x: int| n) =~= center_list(numbers, c).push(n));
    } else {
        assert(center_list(numbers, c) + Seq::new(0, |x: int| n) =~= center_list(numbers, c));
    }
    assert(spec_residue_class(sum) == i);
}

/// The step gives the new center `n` an exact (empty) list.
proof fn lemma_step_new_center(
    numbers: Seq<u32>,
    n: u32,
    squares_before: Seq<Seq<u64>>,
    squares_after: Seq<Seq<u64>>,
    lists_before: Seq<Map<u64, Seq<u32>>>,
    lists_centered: Seq<Map<u64, Seq<u32>>>,
    lists_after: Seq<Map<u64, Seq<u32>>>,
)
    requires
        search_exhaustive(numbers, squares_before, lists_before, Seq::empty()),
        forall|k: int| 0 <= k < numbers.len() ==> #[trigger] numbers[k] < n,
        2 * (n * n) <= u64::MAX,
        search_step(n, squares_before, squares_after, lists_before, lists_centered, lists_after),
    ensures
        center_listed(lists_after, numbers.push(n), n),
{
    let square = (n * n) as u64;
    let sum = (2 * (n * n)) as u64;
    let i = spec_residue_class(sum);
    let key = spec_hash(sum);
    assert(0 <= i < 3);
    assert(lists_centered[i][key] == Seq::<u32>::empty());
    let j = (6 - spec_residue_class(square) + i) % 3;
    let sq = squares_before[j];
    assert(0 <= j < 3);
    assert forall|k: int| 0 <= k < sq.len() implies square + #[trigger] sq[k] < sum by {
        assert(sq.contains(sq[k]));
        assert(squares_before[j].contains(sq[k]));
        lemma_square_of_number(numbers, sq[k]);
        let m = choose|m: u32| #[trigger] numbers.contains(m) && m * m == sq[k];
        let mi = choose|x: int| 0 <= x < numbers.len() && numbers[x] == m;
        assert(numbers[mi] < n);
        lemma_square_lt(m as int, n as int);
    }
    lemma_recorded_sum(lists_centered[i], sq, square, n, sum);
    lemma_completing_distinct(sq, square, sum);
    assert(lists_after[i][key] =~= Seq::<u32>::empty());
    let longer = numbers.push(n);
    let p = |x: u32| completes_center(longer, n, x);
    assert forall|k: int| 0 <= k < longer.len() implies !p(#[trigger] longer[k]) by {
        if k < numbers.len() {
            assert(longer[k] == numbers[k]);
        }
    }
    lemma_filter_none(longer, p);
}

/// One step of the search keeps it exhaustive: after the number `n`,
/// bigger than every number before it, every waiting center's list holds
/// exactly the numbers so far that complete its doubled square with the
/// square of another number so far, `n` among them where it does, and `n`
/// waits as a center with an empty list.
pub proof fn lemma_step_keeps_exhaustive(
    numbers: Seq<u32>,
    n: u32,
    squares_before: Seq<Seq<u64>>,
    squares_after: Seq<Seq<u64>>,
    lists_before: Seq<Map<u64, Seq<u32>>>,
    lists_centered: Seq<Map<u64, Seq<u32>>>,
    lists_after: Seq<Map<u64, Seq<u32>>>,
    centers: Seq<u32>,
)
    requires
        search_exhaustive(numbers, squares_before, lists_before, centers),
        forall|k: int| 0 <= k < numbers.len() ==> #[trigger] numbers[k] < n,
        1 <= n,
        (n * n) % 24 == 1,
        2 * (n * n) <= u64::MAX,
        search_step(n, squares_before, squares_after, lists_before, lists_centered, lists_after),
    ensures
        search_exhaustive(numbers.push(n), squares_after, lists_after, centers.push(n)),
{
    let longer = numbers.push(n);
    let square = (n * n) as u64;
    let square_class = spec_residue_class(square);
    assert(search_exhaustive(numbers, squares_before, lists_before, Seq::empty()));
    // the numbers
    assert forall|j: int, k: int| 0 <= j < k < longer.len() implies #[trigger] longer[j] < #[trigger] longer[k] by {
        if k < numbers.len() {
            assert(longer[j] == numbers[j] && longer[k] == numbers[k]);
        } else {
            assert(longer[j] == numbers[j]);
        }
    }
    assert forall|k: int| 0 <= k < longer.len() implies 1 <= #[trigger] longer[k] && (longer[k] * longer[k]) % 24 == 1
        && 2 * (longer[k] * longer[k]) <= u64::MAX by {
        if k < numbers.len() {
            assert(longer[k] == numbers[k]);
        }
    }
    // the squares by class
    assert(squares_of(longer) =~= squares_of(numbers).push(square));
    assert(!squares_of(numbers).contains(square)) by {
        if squares_of(numbers).contains(square) {
            lemma_square_of_number(numbers, square);
            let m = choose|m: u32| #[trigger] numbers.contains(m) && m * m == square;
            let mi = choose|x: int| 0 <= x < numbers.len() && numbers[x] == m;
            assert(numbers[mi] < n);
            lemma_square_lt(m as int, n as int);
        }
    }
    assert forall|i: int, s: u64| 0 <= i < 3 implies (#[trigger] squares_after[i].contains(s) <==> squares_of(
        longer,
    ).contains(s) && spec_residue_class(s) == i) by {
        assert(squares_before[i].contains(s) <==> squares_of(numbers).contains(s) && spec_residue_class(s) == i);
        if squares_of(longer).contains(s) {
            let k = choose|k: int| 0 <= k < squares_of(longer).len() && squares_of(longer)[k] == s;
            if k < numbers.len() {
                assert(squares_of(numbers)[k] == s);
            }
        }
        if squares_of(numbers).contains(s) {
            let k = choose|k: int| 0 <= k < squares_of(numbers).len() && squares_of(numbers)[k] == s;
            assert(squares_of(longer)[k] == s);
        }
        assert(squares_of(longer)[numbers.len() as int] == square);
        if i == square_class {
            if squares_after[i].contains(s) {
                let k = choose|k: int| 0 <= k < squares_after[i].len() && squares_after[i][k] == s;
                if k < squares_before[i].len() {
                    assert(squares_before[i][k] == s);
                }
            }
            if s == square {
                assert(squares_after[i][squares_before[i].len() as int] == s);
            } else if squares_before[i].contains(s) {
                let k = choose|k: int| 0 <= k < squares_before[i].len() && squares_before[i][k] == s;
                assert(squares_after[i][k] == s);
            }
        }
    }
    assert forall|i: int| 0 <= i < 3 implies (#[trigger] squares_after[i]).no_duplicates() by {
        assert(squares_before[i].no_duplicates());
        if i == square_class {
            assert(!squares_before[i].contains(square));
            let after = squares_after[i];
            assert forall|a: int, b: int| 0 <= a < after.len() && 0 <= b < after.len() && a != b implies after[a]
                != after[b] by {
                if a < squares_before[i].len() && b < squares_before[i].len() {
                } else if a < squares_before[i].len() {
                    assert(squares_before[i].contains(after[a]));
                } else if b < squares_before[i].len() {
                    assert(squares_before[i].contains(after[b]));
                }
            }
        }
    }
    // the centers
    let new_centers = centers.push(n);
    assert forall|k: int| 0 <= k < new_centers.len() implies longer.contains(#[trigger] new_centers[k])
        && center_listed(lists_after, longer, new_centers[k]) by {
        if k < centers.len() {
            let c = centers[k];
            assert(new_centers[k] == c);
            let ci = choose|x: int| 0 <= x < numbers.len() && numbers[x] == c;
            assert(longer[ci] == c);
            lemma_step_keeps_center(
                numbers,
                n,
                squares_before,
                squares_after,
                lists_before,
                lists_centered,
                lists_after,
                c,
            );
        } else {
            assert(new_centers[k] == n);
            assert(longer[numbers.len() as int] == n);
            lemma_step_new_center(numbers, n, squares_before, squares_after, lists_before, lists_centered, lists_after);
        }
    }
}


/// The lists of the three sum tables.
pub open spec fn tables_lists(sums_by_class: [NoHashMap<u64, SharedVec>; 3]) -> Seq<Map<u64, Seq<u32>>> {
    seq![table_lists(sums_by_class[0]), table_lists(sums_by_class[1]), table_lists(sums_by_class[2])]
}

/// For a waiting center of an exhaustive search, the list that
/// `center_numbers` reads (in the table of the class that completes the
/// center's class) is exactly the center's list.
pub proof fn lemma_center_numbers_exact(
    numbers: Seq<u32>,
    squares_by_class: Seq<Seq<u64>>,
    sums_by_class: [NoHashMap<u64, SharedVec>; 3],
    centers: Seq<u32>,
    k: int,
)
    requires
        search_exhaustive(numbers, squares_by_class, tables_lists(sums_by_class), centers),
        0 <= k < centers.len(),
    ensures
        ({
            let c = centers[k];
            let center_square = (c * c) as u64;
            let table = sums_by_class[(6 - spec_residue_class(center_square)) % 3]@;
            let key = spec_hash((2 * center_square) as u64);
            &&& table.contains_key(key)
            &&& table[key]@ == center_list(numbers, c)
        }),
{
    let c = centers[k];
    let ci = choose|x: int| 0 <= x < numbers.len() && numbers[x] == c;
    assert(numbers[ci] == c);
    let center_square = (c * c) as u64;
    assert(center_square % 24 == 1);
    lemma_complement_class_exact(center_square);
    assert(center_listed(tables_lists(sums_by_class), numbers, c));
    let class = (6 - spec_residue_class(center_square)) % 3;
    assert(0 <= class < 3);
    assert(tables_lists(sums_by_class)[class] == table_lists(sums_by_class[class]));
}

} // verus!
