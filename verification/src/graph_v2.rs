use crate::hashing::spec_hash;
use crate::magic_sums::{lemma_pruned, ElementView, MagicSums, MagicSumsView};
use vstd::prelude::*;
use vstd::relations::sorted_by;

verus! {

/// The square of a natural number.
pub open spec fn square_of(root: nat) -> nat {
    root * root
}

/// `number` is a perfect square.
pub open spec fn spec_is_square(number: u64) -> bool {
    exists|root: nat| #[trigger] square_of(root) == number
}

/// The square root of `number`, rounded down (what `u64::isqrt` gives),
/// by binary search.
pub fn integer_sqrt(number: u64) -> (root: u64)
    ensures
        root * root <= number,
        number < (root + 1) * (root + 1),
{
    let mut low: u64 = 0;
    let mut high: u64 = 0x1_0000_0000;
    proof {
        assert(number < high * high) by (nonlinear_arith)
            requires
                high == 0x1_0000_0000,
                number <= u64::MAX,
        ;
    }
    while high - low > 1
        invariant
            low < high <= 0x1_0000_0000,
            low * low <= number,
            number < high * high,
        decreases high - low,
    {
        let middle = low + (high - low) / 2;
        proof {
            assert(middle * middle <= 0xffff_ffff * 0xffff_ffff) by (nonlinear_arith)
                requires
                    middle < 0x1_0000_0000,
            ;
        }
        if middle * middle <= number {
            low = middle;
        } else {
            high = middle;
        }
    }
    low
}

/// Whether `number` is a perfect square.
pub fn is_square(number: u64) -> (square: bool)
    ensures
        square == spec_is_square(number),
{
    let root = integer_sqrt(number);
    proof {
        if root * root != number {
            assert forall|k: nat| #[trigger] square_of(k) != number by {
                if k <= root {
                    assert(k * k <= root * root) by (nonlinear_arith)
                        requires
                            k <= root,
                    ;
                } else {
                    assert(k * k >= (root + 1) * (root + 1)) by (nonlinear_arith)
                        requires
                            k >= root + 1,
                    ;
                }
            }
        } else {
            assert(square_of(root as nat) == number);
        }
    }
    root * root == number
}

/// `slice::sort_by_key` on the candidate (first) field: the entries are
/// rearranged into ascending order of candidate, entries of equal
/// candidate keeping their order (the sort is stable), which is the one
/// order that the stable merge sort `Seq::sort_by` of vstd also gives.
#[verifier::external_body]
fn sort_by_candidate(entries: &mut Vec<(u64, usize, bool)>)
    ensures
        final(entries)@ == old(entries)@.sort_by(by_candidate()),
        final(entries)@.to_multiset() == old(entries)@.to_multiset(),
        sorted_by(final(entries)@, by_candidate()),
{
    entries.sort_by_key(|&(candidate, _, _)| candidate);
}

/// Lexicographic order on pairs, the order of tuples in std.
pub open spec fn pair_le(a: (u64, usize), b: (u64, usize)) -> bool {
    a.0 < b.0 || (a.0 == b.0 && a.1 <= b.1)
}

/// `slice::sort` on pairs: the entries are rearranged into ascending
/// lexicographic order, the one sorted rearrangement, which `Seq::sort_by`
/// of vstd also gives.
#[verifier::external_body]
fn sort_pairs(entries: &mut Vec<(u64, usize)>)
    ensures
        final(entries)@ == old(entries)@.sort_by(by_pair()),
        final(entries)@.to_multiset() == old(entries)@.to_multiset(),
        sorted_by(final(entries)@, by_pair()),
{
    entries.sort();
}

/// The magic sum of a square whose center cell is `center_square`.
pub open spec fn magic_sum_of(center_square: u64) -> int {
    3 * center_square
}

/// The squares that may stand opposite each other around the center: for
/// each bigger number `n` (whose square and `2 * center - n * n` sum to
/// twice the center), the smaller partner `2 * center - n * n` in reverse
/// order, then the bigger squares `n * n` in order.
pub open spec fn ordered_square_values(center_square: u64, bigger_numbers: Seq<u32>) -> Seq<u64> {
    let n = bigger_numbers.len() as int;
    Seq::new(
        2 * bigger_numbers.len(),
        |k: int|
            if k < n {
                (2 * center_square - bigger_numbers[n - 1 - k] * bigger_numbers[n - 1 - k]) as u64
            } else {
                (bigger_numbers[k - n] * bigger_numbers[k - n]) as u64
            },
    )
}

/// Element `b` is completed to the magic sum by element `a` and some third
/// element.
pub open spec fn completes_magic_sum(elements: Seq<ElementView>, a: int, b: int, magic_sum: int) -> bool {
    exists|c: int|
        0 <= c < elements.len() && elements[a].number + elements[b].number + (
        #[trigger] elements[c]).number == magic_sum
}

/// Every partner of every element completes the magic sum together with it
/// and a third element.
pub open spec fn partnerships_complete(elements: Seq<ElementView>, magic_sum: int) -> bool {
    forall|a: int, k: int|
        0 <= a < elements.len() && 0 <= k < elements[a].partners.len() ==> completes_magic_sum(
            elements,
            a,
            #[trigger] elements[a].partners[k] as int,
            magic_sum,
        )
}

/// Each entry `(number, index)` names an element whose number it is.
pub open spec fn pairs_index_numbers(sums: MagicSumsView, entries: Seq<(u64, usize)>) -> bool {
    forall|k: int|
        0 <= k < entries.len() ==> (#[trigger] entries[k]).1 < sums.elements.len()
            && sums.elements[entries[k].1 as int].number == entries[k].0
}

/// Each entry `(number, index, _)` names an element whose number it is,
/// and carries that element's squareness.
pub open spec fn triples_index_numbers(sums: MagicSumsView, entries: Seq<(u64, usize, bool)>) -> bool {
    forall|k: int|
        0 <= k < entries.len() ==> (#[trigger] entries[k]).1 < sums.elements.len()
            && sums.elements[entries[k].1 as int].number == entries[k].0
            && sums.elements[entries[k].1 as int].is_square == entries[k].2
}

/// The abstract state of a `Graph`.
pub struct GraphView {
    pub sums: MagicSumsView,
    pub ordered_squares: Seq<(u64, usize)>,
    pub additions1: Seq<(u64, usize, bool)>,
    pub square_additions2: Seq<(u64, usize)>,
    pub non_square_additions3: Seq<(u64, usize)>,
}

impl GraphView {
    /// The table is consistent and every list entry names the element of
    /// its number.
    pub open spec fn consistent(self) -> bool {
        &&& self.sums.wf()
        &&& pairs_index_numbers(self.sums, self.ordered_squares)
        &&& triples_index_numbers(self.sums, self.additions1)
        &&& pairs_index_numbers(self.sums, self.square_additions2)
        &&& pairs_index_numbers(self.sums, self.non_square_additions3)
    }
}

/// The numbers that can complete the magic sum of one center square, with
/// the partnerships between them, and the sums found on the way.
pub struct Graph {
    magic_sums: MagicSums,
    ordered_squares: Vec<(u64, usize)>,
    additions1: Vec<(u64, usize, bool)>,
    square_additions2: Vec<(u64, usize)>,
    non_square_additions3: Vec<(u64, usize)>,
}

impl View for Graph {
    type V = GraphView;

    closed spec fn view(&self) -> GraphView {
        GraphView {
            sums: self.magic_sums@,
            ordered_squares: self.ordered_squares@,
            additions1: self.additions1@,
            square_additions2: self.square_additions2@,
            non_square_additions3: self.non_square_additions3@,
        }
    }
}

proof fn lemma_pairs_keep(old_sums: MagicSumsView, new_sums: MagicSumsView, entries: Seq<(u64, usize)>)
    requires
        pairs_index_numbers(old_sums, entries),
        new_sums.elements.len() >= old_sums.elements.len(),
        forall|x: int|
            0 <= x < old_sums.elements.len() ==> (#[trigger] new_sums.elements[x]).number
                == old_sums.elements[x].number,
    ensures
        pairs_index_numbers(new_sums, entries),
{
    assert forall|k: int| 0 <= k < entries.len() implies (#[trigger] entries[k]).1 < new_sums.elements.len()
        && new_sums.elements[entries[k].1 as int].number == entries[k].0 by {
        assert(old_sums.elements[entries[k].1 as int].number == entries[k].0);
    }
}

proof fn lemma_triples_keep(
    old_sums: MagicSumsView,
    new_sums: MagicSumsView,
    entries: Seq<(u64, usize, bool)>,
)
    requires
        triples_index_numbers(old_sums, entries),
        new_sums.elements.len() >= old_sums.elements.len(),
        forall|x: int|
            0 <= x < old_sums.elements.len() ==> (#[trigger] new_sums.elements[x]).number
                == old_sums.elements[x].number && new_sums.elements[x].is_square
                == old_sums.elements[x].is_square,
    ensures
        triples_index_numbers(new_sums, entries),
{
    assert forall|k: int| 0 <= k < entries.len() implies (#[trigger] entries[k]).1 < new_sums.elements.len()
        && new_sums.elements[entries[k].1 as int].number == entries[k].0
        && new_sums.elements[entries[k].1 as int].is_square == entries[k].2 by {
        assert(old_sums.elements[entries[k].1 as int].number == entries[k].0);
    }
}

/// Appending an element keeps every partnership complete.
proof fn lemma_complete_after_insert(old_sums: MagicSumsView, new_sums: MagicSumsView, magic_sum: int)
    requires
        old_sums.wf(),
        partnerships_complete(old_sums.elements, magic_sum),
        new_sums.elements.len() <= old_sums.elements.len() + 1,
        new_sums.elements.len() >= old_sums.elements.len(),
        forall|x: int|
            0 <= x < old_sums.elements.len() ==> #[trigger] new_sums.elements[x] == old_sums.elements[x],
        new_sums.elements.len() > old_sums.elements.len() ==> new_sums.elements[old_sums.elements.len() as int].partners.len() == 0,
    ensures
        partnerships_complete(new_sums.elements, magic_sum),
{
    let olds = old_sums.elements;
    let news = new_sums.elements;
    assert forall|a: int, k: int| 0 <= a < news.len() && 0 <= k < news[a].partners.len() implies completes_magic_sum(
        news,
        a,
        #[trigger] news[a].partners[k] as int,
        magic_sum,
    ) by {
        if a < olds.len() {
            assert(news[a] == olds[a]);
            assert(completes_magic_sum(olds, a, olds[a].partners[k] as int, magic_sum));
            let c = choose|c: int|
                0 <= c < olds.len() && olds[a].number + olds[olds[a].partners[k] as int].number + (
                #[trigger] olds[c]).number == magic_sum;
            assert(news[c] == olds[c]);
            assert(olds[a].partners[k] < olds.len());
            assert(news[olds[a].partners[k] as int] == olds[olds[a].partners[k] as int]);
        }
    }
}

proof fn lemma_complete_after_append(s: MagicSumsView, index: usize, x: usize, y: usize, magic_sum: int)
    requires
        s.wf(),
        partnerships_complete(s.elements, magic_sum),
        index < s.elements.len(),
        x < s.elements.len(),
        y < s.elements.len(),
        s.elements[index as int].number + s.elements[x as int].number + s.elements[y as int].number
            == magic_sum,
    ensures
        partnerships_complete(s.with_partners_appended(index, x, y).elements, magic_sum),
        s.with_partners_appended(index, x, y).wf(),
        s.with_partners_appended(index, x, y).elements.len() == s.elements.len(),
        forall|z: int|
            0 <= z < s.elements.len() ==> (#[trigger] s.with_partners_appended(index, x, y).elements[z]).number
                == s.elements[z].number,
{
    let olds = s.elements;
    let t = s.with_partners_appended(index, x, y);
    let news = t.elements;
    assert forall|a: int, k: int| 0 <= a < news.len() && 0 <= k < news[a].partners.len() implies completes_magic_sum(
        news,
        a,
        #[trigger] news[a].partners[k] as int,
        magic_sum,
    ) by {
        if a != index || k < olds[a].partners.len() {
            assert(news[a].partners[k] == olds[a].partners[k]);
            assert(olds[a].partners[k] < olds.len());
            assert(completes_magic_sum(olds, a, olds[a].partners[k] as int, magic_sum));
            let c = choose|c: int|
                0 <= c < olds.len() && olds[a].number + olds[olds[a].partners[k] as int].number + (
                #[trigger] olds[c]).number == magic_sum;
            assert(news[c].number == olds[c].number);
        } else if k == olds[a].partners.len() {
            assert(news[a].partners[k] == x);
            assert(news[y as int].number == olds[y as int].number);
        } else {
            assert(news[a].partners[k] == y);
            assert(news[x as int].number == olds[x as int].number);
        }
    }
    assert forall|a: int, k: int|
        0 <= a < news.len() && 0 <= k < news[a].partners.len() implies #[trigger] news[a].partners[k]
        < news.len() by {
        if a != index || k < olds[a].partners.len() {
            assert(news[a].partners[k] == olds[a].partners[k]);
        }
    }
    assert forall|key: u64| #[trigger] t.lookup.contains_key(key) implies t.lookup[key] < news.len()
        && crate::hashing::spec_hash(news[t.lookup[key] as int].number) == key by {
        assert(news[t.lookup[key] as int].number == olds[t.lookup[key] as int].number);
    }
}

/// Recording a partnership of three elements whose numbers add up to the
/// magic sum keeps every partnership complete.
proof fn lemma_complete_after_partnership(s: MagicSumsView, i1: usize, i2: usize, i3: usize, magic_sum: int)
    requires
        s.wf(),
        partnerships_complete(s.elements, magic_sum),
        i1 < s.elements.len(),
        i2 < s.elements.len(),
        i3 < s.elements.len(),
        s.elements[i1 as int].number + s.elements[i2 as int].number + s.elements[i3 as int].number
            == magic_sum,
    ensures
        partnerships_complete(s.with_partnership(i1, i2, i3).elements, magic_sum),
{
    lemma_complete_after_append(s, i1, i2, i3, magic_sum);
    let s1 = s.with_partners_appended(i1, i2, i3);
    lemma_complete_after_append(s1, i2, i1, i3, magic_sum);
    let s2 = s1.with_partners_appended(i2, i1, i3);
    lemma_complete_after_append(s2, i3, i1, i2, magic_sum);
}

/// Partners come in pairs: the partners at places `k` and `k + 1` of an
/// element, `k` even, complete the magic sum together with it.
pub open spec fn partner_pairs_complete(elements: Seq<ElementView>, magic_sum: int) -> bool {
    forall|a: int, k: int|
        0 <= a < elements.len() && 0 <= k && k + 1 < elements[a].partners.len() && k % 2 == 0
            ==> elements[a].number + elements[#[trigger] elements[a].partners[k] as int].number
            + elements[elements[a].partners[k + 1] as int].number == magic_sum
}

/// Where partners come in completing pairs and every partner list is even,
/// each partner completes the magic sum with its element and the other
/// partner of its pair.
pub proof fn lemma_pairs_give_completeness(s: MagicSumsView, magic_sum: int)
    requires
        s.wf(),
        s.partners_even(),
        partner_pairs_complete(s.elements, magic_sum),
    ensures
        partnerships_complete(s.elements, magic_sum),
{
    let e = s.elements;
    assert forall|a: int, k: int| 0 <= a < e.len() && 0 <= k < e[a].partners.len() implies completes_magic_sum(
        e,
        a,
        #[trigger] e[a].partners[k] as int,
        magic_sum,
    ) by {
        assert(e[a].partners.len() % 2 == 0);
        if k % 2 == 0 {
            let c = e[a].partners[k + 1] as int;
            assert(c < e.len());
            assert(e[a].number + e[e[a].partners[k] as int].number + e[c].number == magic_sum);
        } else {
            let c = e[a].partners[k - 1] as int;
            assert(c < e.len());
            assert(e[a].number + e[e[a].partners[k - 1] as int].number + e[e[a].partners[k] as int].number
                == magic_sum);
            assert(e[a].number + e[e[a].partners[k] as int].number + e[c].number == magic_sum);
        }
    }
}

/// Appending an element with no partners keeps every pair of partners
/// complete.
proof fn lemma_pairs_after_insert(old_sums: MagicSumsView, new_sums: MagicSumsView, magic_sum: int)
    requires
        old_sums.wf(),
        partner_pairs_complete(old_sums.elements, magic_sum),
        new_sums.elements.len() <= old_sums.elements.len() + 1,
        new_sums.elements.len() >= old_sums.elements.len(),
        forall|x: int|
            0 <= x < old_sums.elements.len() ==> #[trigger] new_sums.elements[x] == old_sums.elements[x],
        new_sums.elements.len() > old_sums.elements.len() ==> new_sums.elements[old_sums.elements.len() as int].partners.len() == 0,
    ensures
        partner_pairs_complete(new_sums.elements, magic_sum),
{
    let olds = old_sums.elements;
    let news = new_sums.elements;
    assert forall|a: int, k: int|
        0 <= a < news.len() && 0 <= k && k + 1 < news[a].partners.len() && k % 2 == 0 implies news[a].number
        + news[#[trigger] news[a].partners[k] as int].number + news[news[a].partners[k + 1] as int].number
        == magic_sum by {
        assert(a < olds.len());
        assert(news[a] == olds[a]);
        assert(olds[a].partners[k] < olds.len());
        assert(olds[a].partners[k + 1] < olds.len());
        assert(news[olds[a].partners[k] as int] == olds[olds[a].partners[k] as int]);
        assert(news[olds[a].partners[k + 1] as int] == olds[olds[a].partners[k + 1] as int]);
    }
}

/// Appending to an even partner list a pair that completes the magic sum
/// with the element keeps every pair of partners complete.
proof fn lemma_pairs_after_append(s: MagicSumsView, index: usize, x: usize, y: usize, magic_sum: int)
    requires
        s.wf(),
        partner_pairs_complete(s.elements, magic_sum),
        index < s.elements.len(),
        x < s.elements.len(),
        y < s.elements.len(),
        s.elements[index as int].partners.len() % 2 == 0,
        s.elements[index as int].number + s.elements[x as int].number + s.elements[y as int].number
            == magic_sum,
    ensures
        partner_pairs_complete(s.with_partners_appended(index, x, y).elements, magic_sum),
{
    let olds = s.elements;
    let news = s.with_partners_appended(index, x, y).elements;
    assert forall|a: int, k: int|
        0 <= a < news.len() && 0 <= k && k + 1 < news[a].partners.len() && k % 2 == 0 implies news[a].number
        + news[#[trigger] news[a].partners[k] as int].number + news[news[a].partners[k + 1] as int].number
        == magic_sum by {
        let n = olds[a].partners.len();
        if a != index || k + 1 < n {
            assert(news[a].partners[k] == olds[a].partners[k]);
            assert(news[a].partners[k + 1] == olds[a].partners[k + 1]);
            assert(olds[a].number + olds[olds[a].partners[k] as int].number + olds[olds[a].partners[k + 1] as int].number
                == magic_sum);
        } else {
            assert(k == n);
            assert(news[a].partners[k] == x);
            assert(news[a].partners[k + 1] == y);
        }
    }
}

/// Recording a partnership of three elements whose numbers add up to the
/// magic sum, in a table whose partner lists are even, keeps every pair of
/// partners complete.
proof fn lemma_pairs_after_partnership(s: MagicSumsView, i1: usize, i2: usize, i3: usize, magic_sum: int)
    requires
        s.wf(),
        s.partners_even(),
        partnerships_complete(s.elements, magic_sum),
        partner_pairs_complete(s.elements, magic_sum),
        i1 < s.elements.len(),
        i2 < s.elements.len(),
        i3 < s.elements.len(),
        s.elements[i1 as int].number + s.elements[i2 as int].number + s.elements[i3 as int].number
            == magic_sum,
    ensures
        partner_pairs_complete(s.with_partnership(i1, i2, i3).elements, magic_sum),
{
    lemma_complete_after_append(s, i1, i2, i3, magic_sum);
    lemma_pairs_after_append(s, i1, i2, i3, magic_sum);
    let s1 = s.with_partners_appended(i1, i2, i3);
    assert(s1.elements[i2 as int].partners.len() % 2 == 0) by {
        if i2 != i1 {
            assert(s1.elements[i2 as int] == s.elements[i2 as int]);
        }
    }
    lemma_complete_after_append(s1, i2, i1, i3, magic_sum);
    lemma_pairs_after_append(s1, i2, i1, i3, magic_sum);
    let s2 = s1.with_partners_appended(i2, i1, i3);
    assert(s2.elements[i3 as int].partners.len() % 2 == 0) by {
        if i3 != i2 {
            assert(s2.elements[i3 as int] == s1.elements[i3 as int]);
        }
        if i3 != i1 {
            assert(s1.elements[i3 as int] == s.elements[i3 as int]);
        }
    }
    lemma_pairs_after_append(s2, i3, i1, i2, magic_sum);
}

/// Pruning a table (what `MagicSums::remove_if_less_than_two_partners` does) keeps every
/// recorded partnership complete: each partner pair still has its third number in the table.
pub proof fn lemma_complete_after_pruning(s: MagicSumsView, magic_sum: int)
    requires
        s.wf(),
        partnerships_complete(s.elements, magic_sum),
    ensures
        partnerships_complete(s.pruned().elements, magic_sum),
{
    lemma_pruned(s);
    let olds = s.elements;
    let news = s.pruned().elements;
    assert forall|a: int, k: int| 0 <= a < news.len() && 0 <= k < news[a].partners.len() implies completes_magic_sum(
        news,
        a,
        #[trigger] news[a].partners[k] as int,
        magic_sum,
    ) by {
        let p = news[a].partners[k];
        assert(news[a].partners.contains(p));
        assert(olds[a].partners.contains(p));
        let m = choose|m: int| 0 <= m < olds[a].partners.len() && olds[a].partners[m] == p;
        assert(olds[a].partners[m] < olds.len());
        assert(completes_magic_sum(olds, a, olds[a].partners[m] as int, magic_sum));
        let c = choose|c: int|
            0 <= c < olds.len() && olds[a].number + olds[p as int].number + (#[trigger] olds[c]).number
                == magic_sum;
        assert(news[c].number == olds[c].number);
        assert(news[p as int].number == olds[p as int].number);
    }
}

proof fn lemma_pairs_sorted(sums: MagicSumsView, before: Seq<(u64, usize)>, after: Seq<(u64, usize)>)
    requires
        pairs_index_numbers(sums, before),
        after.to_multiset() == before.to_multiset(),
    ensures
        pairs_index_numbers(sums, after),
{
    before.to_multiset_ensures();
    after.to_multiset_ensures();
    assert forall|k: int| 0 <= k < after.len() implies (#[trigger] after[k]).1 < sums.elements.len()
        && sums.elements[after[k].1 as int].number == after[k].0 by {
        assert(after.contains(after[k]));
        assert(after.to_multiset().count(after[k]) > 0);
        assert(before.contains(after[k]));
        let m = choose|m: int| 0 <= m < before.len() && before[m] == after[k];
        assert(before[m] == after[k]);
    }
}

proof fn lemma_triples_sorted(
    sums: MagicSumsView,
    before: Seq<(u64, usize, bool)>,
    after: Seq<(u64, usize, bool)>,
)
    requires
        triples_index_numbers(sums, before),
        after.to_multiset() == before.to_multiset(),
    ensures
        triples_index_numbers(sums, after),
{
    before.to_multiset_ensures();
    after.to_multiset_ensures();
    assert forall|k: int| 0 <= k < after.len() implies (#[trigger] after[k]).1 < sums.elements.len()
        && sums.elements[after[k].1 as int].number == after[k].0
        && sums.elements[after[k].1 as int].is_square == after[k].2 by {
        assert(after.contains(after[k]));
        assert(after.to_multiset().count(after[k]) > 0);
        assert(before.contains(after[k]));
        let m = choose|m: int| 0 <= m < before.len() && before[m] == after[k];
        assert(before[m] == after[k]);
    }
}

/// Finding or adding the element of `number`: where the lookup holds its
/// hash, that element's index and squareness, with the table unchanged;
/// else, where `accept`, a new element at the end with the squareness
/// `is_square`; else nothing.
pub open spec fn insert_outcome(sums: MagicSumsView, number: u64, is_square: bool, accept: bool) -> (MagicSumsView, Option<(usize, bool)>) {
    let key = crate::hashing::spec_hash(number);
    if sums.lookup.contains_key(key) {
        (sums, Some((sums.lookup[key], sums.elements[sums.lookup[key] as int].is_square)))
    } else if accept {
        (sums.with_element(number, is_square), Some((sums.elements.len() as usize, is_square)))
    } else {
        (sums, None)
    }
}

/// The table and the ordered squares after finding or adding, in order, the
/// element of each of `values`, taken to be squares.
pub open spec fn ordered_fold(sums: MagicSumsView, values: Seq<u64>) -> (MagicSumsView, Seq<(u64, usize)>)
    decreases values.len(),
{
    if values.len() == 0 {
        (sums, Seq::empty())
    } else {
        let (earlier, ordered) = ordered_fold(sums, values.drop_last());
        let (later, found) = insert_outcome(earlier, values.last(), true, true);
        (later, ordered.push((values.last(), found.unwrap().0)))
    }
}

/// The table after the four sweeps holds every candidate that a sweep
/// reaches and keeps: every one of the first sweep, those of the second
/// that are squares or come from a square addition, those of the third
/// that are not squares, and those of the last that are squares.
proof fn lemma_generate_keeps(
    magic_sum: u64,
    squares: Seq<(u64, usize)>,
    sums1: MagicSumsView,
    sums2b: MagicSumsView,
    sums3: MagicSumsView,
    sums4: MagicSumsView,
    sums5: MagicSumsView,
    cols1: Seq<(u64, usize, bool)>,
    cols2: Seq<(u64, usize, bool)>,
    cols3: Seq<(u64, usize, bool)>,
    cols4: Seq<(u64, usize, bool)>,
)
    requires
        sums2b.lookup == sweep_rows(sums1, Seq::empty(), SweepKind::Pairs, magic_sum, squares, cols1, 0).0.lookup,
        sums3 == sweep_rows(sums2b, Seq::empty(), SweepKind::EitherSquare, magic_sum, squares, cols2, 0).0,
        sums4 == sweep_rows(sums3, Seq::empty(), SweepKind::NonSquare, magic_sum, squares, cols3, 0).0,
        sums5 == sweep_rows(sums4, Seq::empty(), SweepKind::Square, magic_sum, squares, cols4, 0).0,
        sums5.wf(),
    ensures
        forall|a: int, q: int|
            #[trigger] first_sweep_reaches(magic_sum, squares, cols1, a, q) ==> holds_number(
                sums5,
                sweep_candidate(magic_sum, squares, cols1, a, q),
            ),
        forall|a: int, q: int|
            #[trigger] sweep_reaches(magic_sum, squares, cols2, a, q) && (spec_is_square(
                sweep_candidate(magic_sum, squares, cols2, a, q),
            ) || cols2[q].2) ==> holds_number(sums5, sweep_candidate(magic_sum, squares, cols2, a, q)),
        forall|a: int, q: int|
            #[trigger] sweep_reaches(magic_sum, squares, cols3, a, q) && !spec_is_square(
                sweep_candidate(magic_sum, squares, cols3, a, q),
            ) ==> holds_number(sums5, sweep_candidate(magic_sum, squares, cols3, a, q)),
        forall|a: int, q: int|
            #[trigger] sweep_reaches(magic_sum, squares, cols4, a, q) && spec_is_square(
                sweep_candidate(magic_sum, squares, cols4, a, q),
            ) ==> holds_number(sums5, sweep_candidate(magic_sum, squares, cols4, a, q)),
{
    assert forall|a: int, q: int|
        #[trigger] sweep_reaches(magic_sum, squares, cols2, a, q) && (spec_is_square(
            sweep_candidate(magic_sum, squares, cols2, a, q),
        ) || cols2[q].2) implies holds_number(sums5, sweep_candidate(magic_sum, squares, cols2, a, q)) by {
        let candidate = sweep_candidate(magic_sum, squares, cols2, a, q);
        let key = spec_hash(candidate);
        lemma_second_sweep_keeps_either_square(sums2b, Seq::empty(), magic_sum, squares, cols2, a, q);
        lemma_sweep_rows_keep_keys(sums3, Seq::empty(), SweepKind::NonSquare, magic_sum, squares, cols3, 0, key);
        lemma_sweep_rows_keep_keys(sums4, Seq::empty(), SweepKind::Square, magic_sum, squares, cols4, 0, key);
        assert(sums5.lookup.contains_key(key));
        let e = sums5.lookup[key] as int;
        assert(e < sums5.elements.len());
        crate::hashing::lemma_hash_injective(sums5.elements[e].number, candidate);
    }
    assert forall|a: int, q: int|
        #[trigger] first_sweep_reaches(magic_sum, squares, cols1, a, q) implies holds_number(
            sums5,
            sweep_candidate(magic_sum, squares, cols1, a, q),
        ) by {
        let key = spec_hash(sweep_candidate(magic_sum, squares, cols1, a, q));
        lemma_first_sweep_keeps_every_candidate(sums1, Seq::empty(), magic_sum, squares, cols1, a, q);
        lemma_sweep_rows_keep_keys(sums2b, Seq::empty(), SweepKind::EitherSquare, magic_sum, squares, cols2, 0, key);
        lemma_sweep_rows_keep_keys(sums3, Seq::empty(), SweepKind::NonSquare, magic_sum, squares, cols3, 0, key);
        lemma_sweep_rows_keep_keys(sums4, Seq::empty(), SweepKind::Square, magic_sum, squares, cols4, 0, key);
        lemma_lookup_holds(sums5, sweep_candidate(magic_sum, squares, cols1, a, q));
    }
    assert forall|a: int, q: int|
        #[trigger] sweep_reaches(magic_sum, squares, cols3, a, q) && !spec_is_square(
            sweep_candidate(magic_sum, squares, cols3, a, q),
        ) implies holds_number(sums5, sweep_candidate(magic_sum, squares, cols3, a, q)) by {
        let key = spec_hash(sweep_candidate(magic_sum, squares, cols3, a, q));
        lemma_third_sweep_keeps_non_squares(sums3, Seq::empty(), magic_sum, squares, cols3, a, q);
        lemma_sweep_rows_keep_keys(sums4, Seq::empty(), SweepKind::Square, magic_sum, squares, cols4, 0, key);
        lemma_lookup_holds(sums5, sweep_candidate(magic_sum, squares, cols3, a, q));
    }
    assert forall|a: int, q: int|
        #[trigger] sweep_reaches(magic_sum, squares, cols4, a, q) && spec_is_square(
            sweep_candidate(magic_sum, squares, cols4, a, q),
        ) implies holds_number(sums5, sweep_candidate(magic_sum, squares, cols4, a, q)) by {
        lemma_last_sweep_keeps_squares(sums4, Seq::empty(), magic_sum, squares, cols4, a, q);
        lemma_lookup_holds(sums5, sweep_candidate(magic_sum, squares, cols4, a, q));
    }
}

/// The four sweeps of candidates.
#[derive(Clone, Copy)]
pub enum SweepKind {
    /// Ordered squares with later ordered squares; every candidate is kept.
    Pairs,
    /// Ordered squares with the first sweep's candidates; a candidate is
    /// kept where it or the other candidate is a square.
    EitherSquare,
    /// Ordered squares with the second sweep's candidates; a candidate is
    /// kept where it is not a square.
    NonSquare,
    /// Ordered squares with the third sweep's candidates; a candidate is
    /// kept where it is a square, with no partnership.
    Square,
}

/// Whether a sweep keeps a new candidate, given whether it and the other
/// candidate are squares.
pub open spec fn accepts(kind: SweepKind, candidate_is_square: bool, column_is_square: bool) -> bool {
    match kind {
        SweepKind::Pairs => true,
        SweepKind::EitherSquare => candidate_is_square || column_is_square,
        SweepKind::NonSquare => !candidate_is_square,
        SweepKind::Square => candidate_is_square,
    }
}

/// One row of a sweep, from column `c` on: each column's value leaves a
/// remainder of what the row's square leaves of the magic sum (zero where
/// it would go below); a zero ends the row, and ends the sweep where the
/// column's element is the first element; a positive remainder is found or
/// added as the sweep's kind says, partners the row's and the column's
/// elements (but in the last sweep) and is recorded with its element.
/// Returns the table, the records, and whether the sweep ends.
pub open spec fn sweep_row(
    sums: MagicSumsView,
    found: Seq<(u64, usize, bool)>,
    kind: SweepKind,
    magic_sum: u64,
    row: (u64, usize),
    columns: Seq<(u64, usize, bool)>,
    c: int,
) -> (MagicSumsView, Seq<(u64, usize, bool)>, bool)
    decreases columns.len() - c,
{
    if c < 0 || c >= columns.len() {
        (sums, found, false)
    } else {
        let column = columns[c];
        let remainder = magic_sum - row.0;
        let candidate = if remainder > column.0 { remainder - column.0 } else { 0 };
        if candidate == 0 {
            (sums, found, column.1 == 0)
        } else {
            let is_square = spec_is_square(candidate as u64);
            let (added, outcome) = insert_outcome(sums, candidate as u64, is_square, accepts(kind, is_square, column.2));
            match outcome {
                Some((k, k_is_square)) => {
                    let partnered = match kind {
                        SweepKind::Square => added,
                        _ => added.with_partnership(row.1, column.1, k),
                    };
                    let recorded = match kind {
                        SweepKind::Square => found,
                        _ => found.push((candidate as u64, k, k_is_square)),
                    };
                    sweep_row(partnered, recorded, kind, magic_sum, row, columns, c + 1)
                },
                None => sweep_row(added, found, kind, magic_sum, row, columns, c + 1),
            }
        }
    }
}

/// Where a row starts among the columns: in the first sweep, after the
/// row's own element; else at the first column.
pub open spec fn row_start(kind: SweepKind, row: (u64, usize)) -> int {
    match kind {
        SweepKind::Pairs => row.1 + 1,
        _ => 0,
    }
}

/// A sweep from row `a` on, until a row ends it.
pub open spec fn sweep_rows(
    sums: MagicSumsView,
    found: Seq<(u64, usize, bool)>,
    kind: SweepKind,
    magic_sum: u64,
    rows: Seq<(u64, usize)>,
    columns: Seq<(u64, usize, bool)>,
    a: int,
) -> (MagicSumsView, Seq<(u64, usize, bool)>)
    decreases rows.len() - a,
{
    if a < 0 || a >= rows.len() {
        (sums, found)
    } else {
        let (after, recorded, stop) = sweep_row(sums, found, kind, magic_sum, rows[a], columns, row_start(kind, rows[a]));
        if stop {
            (after, recorded)
        } else {
            sweep_rows(after, recorded, kind, magic_sum, rows, columns, a + 1)
        }
    }
}

/// One of the table's elements has the number `n`.
pub open spec fn holds_number(sums: MagicSumsView, n: u64) -> bool {
    exists|e: int| 0 <= e < sums.elements.len() && #[trigger] sums.elements[e].number == n
}

/// A number whose hash the lookup of a consistent table holds is one of
/// its elements' numbers.
proof fn lemma_lookup_holds(sums: MagicSumsView, n: u64)
    requires
        sums.wf(),
        sums.lookup.contains_key(spec_hash(n)),
    ensures
        holds_number(sums, n),
{
    let e = sums.lookup[spec_hash(n)] as int;
    crate::hashing::lemma_hash_injective(sums.elements[e].number, n);
}

/// Row `row` of a sweep stops the whole sweep: from `start` on, the first
/// column whose value leaves nothing of the row's remainder of the magic
/// sum belongs to the first element.
pub open spec fn row_stops(magic_sum: u64, row: (u64, usize), columns: Seq<(u64, usize, bool)>, start: int) -> bool {
    exists|p: int|
        start <= p < columns.len() && magic_sum - row.0 <= (#[trigger] columns[p]).0 && columns[p].1 == 0 && forall|
            r: int,
        |
            start <= r < p ==> (#[trigger] columns[r]).0 < magic_sum - row.0
}

/// A sweep whose rows all start at the first column reaches the column `q`
/// of row `a`: no earlier row stops the sweep, and every column of row `a`
/// up to `q` leaves a positive remainder.
pub open spec fn sweep_reaches(magic_sum: u64, rows: Seq<(u64, usize)>, columns: Seq<(u64, usize, bool)>, a: int, q: int) -> bool {
    &&& 0 <= a < rows.len()
    &&& 0 <= q < columns.len()
    &&& forall|r: int| 0 <= r < a ==> !row_stops(magic_sum, #[trigger] rows[r], columns, 0)
    &&& forall|p: int| 0 <= p <= q ==> (#[trigger] columns[p]).0 < magic_sum - rows[a].0
}

/// A sweep of kind `kind`, from row `a0` on, reaches the column `q` of row
/// `a`: no row from `a0` up to `a` stops the sweep, and every column of row
/// `a` from where the row starts up to `q` leaves a positive remainder.
pub open spec fn sweep_reaches_kind(
    magic_sum: u64,
    rows: Seq<(u64, usize)>,
    columns: Seq<(u64, usize, bool)>,
    kind: SweepKind,
    a0: int,
    a: int,
    q: int,
) -> bool {
    &&& 0 <= a0 <= a < rows.len()
    &&& row_start(kind, rows[a]) <= q < columns.len()
    &&& forall|r: int| a0 <= r < a ==> !row_stops(magic_sum, #[trigger] rows[r], columns, row_start(kind, rows[r]))
    &&& forall|p: int| row_start(kind, rows[a]) <= p <= q ==> (#[trigger] columns[p]).0 < magic_sum - rows[a].0
}

/// The first sweep reaches the column `q` of row `a`: each row starts right
/// after its own element's place, no earlier row stops the sweep, and every
/// column of row `a` from its start up to `q` leaves a positive remainder.
pub open spec fn first_sweep_reaches(magic_sum: u64, rows: Seq<(u64, usize)>, columns: Seq<(u64, usize, bool)>, a: int, q: int) -> bool {
    &&& 0 <= a < rows.len()
    &&& rows[a].1 + 1 <= q < columns.len()
    &&& forall|r: int| 0 <= r < a ==> !row_stops(magic_sum, #[trigger] rows[r], columns, rows[r].1 + 1)
    &&& forall|p: int| rows[a].1 + 1 <= p <= q ==> (#[trigger] columns[p]).0 < magic_sum - rows[a].0
}

/// The candidate of row `a` and column `q`: what the row's square and the
/// column's value leave of the magic sum.
pub open spec fn sweep_candidate(magic_sum: u64, rows: Seq<(u64, usize)>, columns: Seq<(u64, usize, bool)>, a: int, q: int) -> u64 {
    (magic_sum - rows[a].0 - columns[q].0) as u64
}

/// A row of a sweep only ever adds to the lookup of the table.
proof fn lemma_sweep_row_keeps_keys(
    sums: MagicSumsView,
    found: Seq<(u64, usize, bool)>,
    kind: SweepKind,
    magic_sum: u64,
    row: (u64, usize),
    columns: Seq<(u64, usize, bool)>,
    c: int,
    key: u64,
)
    requires
        sums.lookup.contains_key(key),
    ensures
        sweep_row(sums, found, kind, magic_sum, row, columns, c).0.lookup.contains_key(key),
    decreases columns.len() - c,
{
    if 0 <= c < columns.len() {
        let column = columns[c];
        let remainder = magic_sum - row.0;
        let candidate = if remainder > column.0 { remainder - column.0 } else { 0 };
        if candidate != 0 {
            let is_square = spec_is_square(candidate as u64);
            let (added, outcome) = insert_outcome(sums, candidate as u64, is_square, accepts(kind, is_square, column.2));
            assert(added.lookup.contains_key(key));
            match outcome {
                Some((k, k_is_square)) => {
                    let partnered = match kind {
                        SweepKind::Square => added,
                        _ => added.with_partnership(row.1, column.1, k),
                    };
                    let recorded = match kind {
                        SweepKind::Square => found,
                        _ => found.push((candidate as u64, k, k_is_square)),
                    };
                    assert(partnered.lookup == added.lookup);
                    lemma_sweep_row_keeps_keys(partnered, recorded, kind, magic_sum, row, columns, c + 1, key);
                },
                None => {
                    lemma_sweep_row_keeps_keys(added, found, kind, magic_sum, row, columns, c + 1, key);
                },
            }
        }
    }
}

/// A sweep only ever adds to the lookup of the table.
proof fn lemma_sweep_rows_keep_keys(
    sums: MagicSumsView,
    found: Seq<(u64, usize, bool)>,
    kind: SweepKind,
    magic_sum: u64,
    rows: Seq<(u64, usize)>,
    columns: Seq<(u64, usize, bool)>,
    a: int,
    key: u64,
)
    requires
        sums.lookup.contains_key(key),
    ensures
        sweep_rows(sums, found, kind, magic_sum, rows, columns, a).0.lookup.contains_key(key),
    decreases rows.len() - a,
{
    if 0 <= a < rows.len() {
        let (after, recorded, stop) = sweep_row(sums, found, kind, magic_sum, rows[a], columns, row_start(kind, rows[a]));
        lemma_sweep_row_keeps_keys(sums, found, kind, magic_sum, rows[a], columns, row_start(kind, rows[a]), key);
        if !stop {
            lemma_sweep_rows_keep_keys(after, recorded, kind, magic_sum, rows, columns, a + 1, key);
        }
    }
}

/// A row stops the sweep only as `row_stops` says.
proof fn lemma_sweep_row_stops(
    sums: MagicSumsView,
    found: Seq<(u64, usize, bool)>,
    kind: SweepKind,
    magic_sum: u64,
    row: (u64, usize),
    columns: Seq<(u64, usize, bool)>,
    c: int,
)
    requires
        0 <= c,
    ensures
        sweep_row(sums, found, kind, magic_sum, row, columns, c).2 == row_stops(magic_sum, row, columns, c),
    decreases columns.len() - c,
{
    if c >= columns.len() {
        assert(!row_stops(magic_sum, row, columns, c));
    }
    if c < columns.len() {
        let column = columns[c];
        let remainder = magic_sum - row.0;
        let candidate = if remainder > column.0 { remainder - column.0 } else { 0 };
        if candidate == 0 {
            if column.1 == 0 {
                assert(forall|r: int| c <= r < c ==> (#[trigger] columns[r]).0 < magic_sum - row.0);
            }
            if row_stops(magic_sum, row, columns, c) {
                let p = choose|p: int|
                    c <= p < columns.len() && magic_sum - row.0 <= (#[trigger] columns[p]).0 && columns[p].1 == 0
                        && forall|r: int| c <= r < p ==> (#[trigger] columns[r]).0 < magic_sum - row.0;
                if p > c {
                    assert(columns[c].0 < magic_sum - row.0);
                }
            }
        } else {
            let is_square = spec_is_square(candidate as u64);
            let (added, outcome) = insert_outcome(sums, candidate as u64, is_square, accepts(kind, is_square, column.2));
            let next = match outcome {
                Some((k, k_is_square)) => {
                    let partnered = match kind {
                        SweepKind::Square => added,
                        _ => added.with_partnership(row.1, column.1, k),
                    };
                    let recorded = match kind {
                        SweepKind::Square => found,
                        _ => found.push((candidate as u64, k, k_is_square)),
                    };
                    (partnered, recorded)
                },
                None => (added, found),
            };
            lemma_sweep_row_stops(next.0, next.1, kind, magic_sum, row, columns, c + 1);
            assert(sweep_row(sums, found, kind, magic_sum, row, columns, c) == sweep_row(next.0, next.1, kind, magic_sum, row, columns, c + 1));
            if row_stops(magic_sum, row, columns, c) {
                let p = choose|p: int|
                    c <= p < columns.len() && magic_sum - row.0 <= (#[trigger] columns[p]).0 && columns[p].1 == 0
                        && forall|r: int| c <= r < p ==> (#[trigger] columns[r]).0 < magic_sum - row.0;
                assert(p != c);
                assert(forall|r: int| c + 1 <= r < p ==> (#[trigger] columns[r]).0 < magic_sum - row.0);
                assert(row_stops(magic_sum, row, columns, c + 1));
            }
            if sweep_row(sums, found, kind, magic_sum, row, columns, c).2 {
                let p = choose|p: int|
                    c + 1 <= p < columns.len() && magic_sum - row.0 <= (#[trigger] columns[p]).0 && columns[p].1 == 0
                        && forall|r: int| c + 1 <= r < p ==> (#[trigger] columns[r]).0 < magic_sum - row.0;
                assert forall|r: int| c <= r < p implies (#[trigger] columns[r]).0 < magic_sum - row.0 by {
                    if r > c {
                        assert(c + 1 <= r < p);
                    }
                }
            }
        }
    }
}

/// A row of a sweep records every positive candidate up to column `q` that
/// the sweep's kind accepts.
proof fn lemma_sweep_row_adds(
    sums: MagicSumsView,
    found: Seq<(u64, usize, bool)>,
    kind: SweepKind,
    magic_sum: u64,
    row: (u64, usize),
    columns: Seq<(u64, usize, bool)>,
    c: int,
    q: int,
)
    requires
        0 <= c <= q < columns.len(),
        forall|p: int| c <= p <= q ==> (#[trigger] columns[p]).0 < magic_sum - row.0,
        accepts(kind, spec_is_square((magic_sum - row.0 - columns[q].0) as u64), columns[q].2),
    ensures
        sweep_row(sums, found, kind, magic_sum, row, columns, c).0.lookup.contains_key(
            spec_hash((magic_sum - row.0 - columns[q].0) as u64),
        ),
    decreases q - c,
{
    let column = columns[c];
    let remainder = magic_sum - row.0;
    assert(column.0 < remainder);
    let candidate = remainder - column.0;
    let is_square = spec_is_square(candidate as u64);
    let (added, outcome) = insert_outcome(sums, candidate as u64, is_square, accepts(kind, is_square, column.2));
    let key = spec_hash((magic_sum - row.0 - columns[q].0) as u64);
    let next = match outcome {
        Some((k, k_is_square)) => {
            let partnered = match kind {
                SweepKind::Square => added,
                _ => added.with_partnership(row.1, column.1, k),
            };
            let recorded = match kind {
                SweepKind::Square => found,
                _ => found.push((candidate as u64, k, k_is_square)),
            };
            (partnered, recorded)
        },
        None => (added, found),
    };
    assert(sweep_row(sums, found, kind, magic_sum, row, columns, c) == sweep_row(next.0, next.1, kind, magic_sum, row, columns, c + 1));
    assert(next.0.lookup == added.lookup);
    if c == q {
        assert(added.lookup.contains_key(key));
        lemma_sweep_row_keeps_keys(next.0, next.1, kind, magic_sum, row, columns, c + 1, key);
    } else {
        lemma_sweep_row_adds(next.0, next.1, kind, magic_sum, row, columns, c + 1, q);
    }
}

/// Row `row` of a sweep of kind `kind`, from column `c` on, reaches a
/// column whose candidate is `n` and accepts it.
pub open spec fn row_adds(magic_sum: u64, row: (u64, usize), columns: Seq<(u64, usize, bool)>, kind: SweepKind, c: int, n: u64) -> bool {
    exists|q: int|
        c <= q < columns.len() && (forall|p: int| c <= p <= q ==> (#[trigger] columns[p]).0 < magic_sum - row.0)
            && (magic_sum - row.0 - (#[trigger] columns[q]).0) as u64 == n && accepts(kind, spec_is_square(n), columns[q].2)
}

/// A sweep of kind `kind`, from row `a0` on, reaches a candidate `n` and
/// accepts it.
pub open spec fn sweep_adds(magic_sum: u64, rows: Seq<(u64, usize)>, columns: Seq<(u64, usize, bool)>, kind: SweepKind, a0: int, n: u64) -> bool {
    exists|a: int, q: int|
        #[trigger] sweep_reaches_kind(magic_sum, rows, columns, kind, a0, a, q) && sweep_candidate(magic_sum, rows, columns, a, q)
            == n && accepts(kind, spec_is_square(n), columns[q].2)
}

/// The table keeps the places and numbers of the elements of `before`, and
/// every element it gains satisfies `added`.
pub open spec fn grows_by(before: MagicSumsView, after: MagicSumsView, added: spec_fn(u64) -> bool) -> bool {
    &&& after.elements.len() >= before.elements.len()
    &&& forall|x: int| 0 <= x < before.elements.len() ==> (#[trigger] after.elements[x]).number == before.elements[x].number
    &&& forall|e: int| before.elements.len() <= e < after.elements.len() ==> added(#[trigger] after.elements[e].number)
}

/// Every index that the lookup holds names an element.
pub open spec fn lookup_in_range(sums: MagicSumsView) -> bool {
    forall|key: u64| #[trigger] sums.lookup.contains_key(key) ==> sums.lookup[key] < sums.elements.len()
}

proof fn lemma_partnership_keeps_numbers(s: MagicSumsView, i1: usize, i2: usize, i3: usize)
    requires
        i1 < s.elements.len(),
        i2 < s.elements.len(),
        i3 < s.elements.len(),
    ensures
        s.with_partnership(i1, i2, i3).elements.len() == s.elements.len(),
        s.with_partnership(i1, i2, i3).lookup == s.lookup,
        forall|x: int| 0 <= x < s.elements.len() ==> (#[trigger] s.with_partnership(i1, i2, i3).elements[x]).number == s.elements[x].number,
{
    let s1 = s.with_partners_appended(i1, i2, i3);
    assert(forall|x: int| 0 <= x < s.elements.len() ==> (#[trigger] s1.elements[x]).number == s.elements[x].number);
    let s2 = s1.with_partners_appended(i2, i1, i3);
    assert(forall|x: int| 0 <= x < s.elements.len() ==> (#[trigger] s2.elements[x]).number == s1.elements[x].number);
    let s3 = s2.with_partners_appended(i3, i1, i2);
    assert(forall|x: int| 0 <= x < s.elements.len() ==> (#[trigger] s3.elements[x]).number == s2.elements[x].number);
}

proof fn lemma_insert_outcome_range(s: MagicSumsView, number: u64, is_square: bool, accept: bool)
    requires
        lookup_in_range(s),
    ensures
        lookup_in_range(insert_outcome(s, number, is_square, accept).0),
        insert_outcome(s, number, is_square, accept).0.elements.len() >= s.elements.len(),
        forall|x: int| 0 <= x < s.elements.len() ==> #[trigger] insert_outcome(s, number, is_square, accept).0.elements[x] == s.elements[x],
        insert_outcome(s, number, is_square, accept).1 matches Some((k, _)) ==> k < insert_outcome(s, number, is_square, accept).0.elements.len(),
        insert_outcome(s, number, is_square, accept).0.elements.len() > s.elements.len() ==> {
            &&& insert_outcome(s, number, is_square, accept).0.elements.len() == s.elements.len() + 1
            &&& insert_outcome(s, number, is_square, accept).0.elements[s.elements.len() as int].number == number
            &&& accept
        },
{
    let key = crate::hashing::spec_hash(number);
    if !s.lookup.contains_key(key) && accept {
        let t = s.with_element(number, is_square);
        assert forall|k2: u64| #[trigger] t.lookup.contains_key(k2) implies t.lookup[k2] < t.elements.len() by {
            if k2 != key {
                assert(s.lookup.contains_key(k2));
            }
        }
    }
}

/// The rows and columns of a sweep name elements of the table.
pub open spec fn sweep_indices_valid(sums: MagicSumsView, rows: Seq<(u64, usize)>, columns: Seq<(u64, usize, bool)>) -> bool {
    &&& forall|r: int| 0 <= r < rows.len() ==> (#[trigger] rows[r]).1 < sums.elements.len()
    &&& forall|p: int| 0 <= p < columns.len() ==> (#[trigger] columns[p]).1 < sums.elements.len()
}

/// Every element that a row of a sweep adds is a candidate the row reaches
/// and accepts.
proof fn lemma_sweep_row_new_elements(
    sums: MagicSumsView,
    found: Seq<(u64, usize, bool)>,
    kind: SweepKind,
    magic_sum: u64,
    row: (u64, usize),
    columns: Seq<(u64, usize, bool)>,
    c: int,
)
    requires
        0 <= c,
        lookup_in_range(sums),
        row.1 < sums.elements.len(),
        forall|p: int| 0 <= p < columns.len() ==> (#[trigger] columns[p]).1 < sums.elements.len(),
    ensures
        grows_by(sums, sweep_row(sums, found, kind, magic_sum, row, columns, c).0, |n: u64| row_adds(magic_sum, row, columns, kind, c, n)),
        lookup_in_range(sweep_row(sums, found, kind, magic_sum, row, columns, c).0),
    decreases columns.len() - c,
{
    let after = sweep_row(sums, found, kind, magic_sum, row, columns, c).0;
    if c < columns.len() {
        let column = columns[c];
        let remainder = magic_sum - row.0;
        let candidate = if remainder > column.0 { remainder - column.0 } else { 0 };
        if candidate != 0 {
            let is_square = spec_is_square(candidate as u64);
            let accept = accepts(kind, is_square, column.2);
            let (added, outcome) = insert_outcome(sums, candidate as u64, is_square, accept);
            let next = match outcome {
                Some((k, k_is_square)) => {
                    let partnered = match kind {
                        SweepKind::Square => added,
                        _ => added.with_partnership(row.1, column.1, k),
                    };
                    let recorded = match kind {
                        SweepKind::Square => found,
                        _ => found.push((candidate as u64, k, k_is_square)),
                    };
                    (partnered, recorded)
                },
                None => (added, found),
            };
            assert(after == sweep_row(next.0, next.1, kind, magic_sum, row, columns, c + 1).0);
            lemma_insert_outcome_range(sums, candidate as u64, is_square, accept);
            match outcome {
                Some((k, _)) => {
                    match kind {
                        SweepKind::Square => {},
                        _ => {
                            lemma_partnership_keeps_numbers(added, row.1, column.1, k);
                        },
                    }
                },
                None => {},
            }
            assert(next.0.elements.len() == added.elements.len());
            assert(forall|x: int| 0 <= x < added.elements.len() ==> (#[trigger] next.0.elements[x]).number == added.elements[x].number);
            lemma_sweep_row_new_elements(next.0, next.1, kind, magic_sum, row, columns, c + 1);
            let n = sums.elements.len();
            assert forall|x: int| 0 <= x < n implies (#[trigger] after.elements[x]).number == sums.elements[x].number by {
                assert(added.elements[x] == sums.elements[x]);
                assert(next.0.elements[x].number == added.elements[x].number);
            }
            assert forall|e: int| n <= e < after.elements.len() implies row_adds(magic_sum, row, columns, kind, c, #[trigger] after.elements[e].number) by {
                let v = after.elements[e].number;
                if e < added.elements.len() {
                    assert(e == n);
                    assert(added.elements[e].number == candidate as u64);
                    assert(next.0.elements[e].number == candidate as u64);
                    assert(accept);
                    assert(forall|p: int| c <= p <= c ==> (#[trigger] columns[p]).0 < magic_sum - row.0);
                    assert((magic_sum - row.0 - columns[c].0) as u64 == v);
                } else {
                    assert(row_adds(magic_sum, row, columns, kind, c + 1, v));
                    let q = choose|q: int|
                        c + 1 <= q < columns.len() && (forall|p: int| c + 1 <= p <= q ==> (#[trigger] columns[p]).0 < magic_sum - row.0)
                            && (magic_sum - row.0 - (#[trigger] columns[q]).0) as u64 == v && accepts(kind, spec_is_square(v), columns[q].2);
                    assert forall|p: int| c <= p <= q implies (#[trigger] columns[p]).0 < magic_sum - row.0 by {
                        if p > c {
                            assert(c + 1 <= p <= q);
                        }
                    }
                }
            }
        }
    }
}

/// Every element that a sweep adds is a candidate it reaches and accepts.
proof fn lemma_sweep_rows_new_elements(
    sums: MagicSumsView,
    found: Seq<(u64, usize, bool)>,
    kind: SweepKind,
    magic_sum: u64,
    rows: Seq<(u64, usize)>,
    columns: Seq<(u64, usize, bool)>,
    a0: int,
)
    requires
        0 <= a0,
        lookup_in_range(sums),
        sweep_indices_valid(sums, rows, columns),
    ensures
        grows_by(sums, sweep_rows(sums, found, kind, magic_sum, rows, columns, a0).0, |n: u64| sweep_adds(magic_sum, rows, columns, kind, a0, n)),
        lookup_in_range(sweep_rows(sums, found, kind, magic_sum, rows, columns, a0).0),
    decreases rows.len() - a0,
{
    let result = sweep_rows(sums, found, kind, magic_sum, rows, columns, a0).0;
    if a0 < rows.len() {
        let start = row_start(kind, rows[a0]);
        let (after, recorded, stop) = sweep_row(sums, found, kind, magic_sum, rows[a0], columns, start);
        lemma_sweep_row_new_elements(sums, found, kind, magic_sum, rows[a0], columns, start);
        lemma_sweep_row_stops(sums, found, kind, magic_sum, rows[a0], columns, start);
        let n = sums.elements.len();
        let m = after.elements.len();
        if !stop {
            assert(sweep_indices_valid(after, rows, columns));
            lemma_sweep_rows_new_elements(after, recorded, kind, magic_sum, rows, columns, a0 + 1);
        }
        assert forall|x: int| 0 <= x < n implies (#[trigger] result.elements[x]).number == sums.elements[x].number by {
            assert(after.elements[x].number == sums.elements[x].number);
        }
        assert forall|e: int| n <= e < result.elements.len() implies sweep_adds(magic_sum, rows, columns, kind, a0, #[trigger] result.elements[e].number) by {
            let v = result.elements[e].number;
            if e < m {
                assert(after.elements[e].number == v);
                assert(row_adds(magic_sum, rows[a0], columns, kind, start, v));
                let q = choose|q: int|
                    start <= q < columns.len() && (forall|p: int| start <= p <= q ==> (#[trigger] columns[p]).0 < magic_sum - rows[a0].0)
                        && (magic_sum - rows[a0].0 - (#[trigger] columns[q]).0) as u64 == v && accepts(kind, spec_is_square(v), columns[q].2);
                assert(sweep_reaches_kind(magic_sum, rows, columns, kind, a0, a0, q));
            } else {
                assert(sweep_adds(magic_sum, rows, columns, kind, a0 + 1, v));
                let (a, q) = choose|a: int, q: int|
                    #[trigger] sweep_reaches_kind(magic_sum, rows, columns, kind, a0 + 1, a, q) && sweep_candidate(magic_sum, rows, columns, a, q)
                        == v && accepts(kind, spec_is_square(v), columns[q].2);
                assert(!row_stops(magic_sum, rows[a0], columns, start));
                assert(sweep_reaches_kind(magic_sum, rows, columns, kind, a0, a, q));
            }
        }
    }
}

/// The first sweep reaches a candidate `n`.
pub open spec fn first_sweep_keeps(magic_sum: u64, rows: Seq<(u64, usize)>, columns: Seq<(u64, usize, bool)>, n: u64) -> bool {
    exists|a: int, q: int|
        #[trigger] first_sweep_reaches(magic_sum, rows, columns, a, q) && sweep_candidate(magic_sum, rows, columns, a, q) == n
}

/// The second sweep reaches a candidate `n` that is a square or comes from
/// a square addition.
pub open spec fn second_sweep_keeps(magic_sum: u64, rows: Seq<(u64, usize)>, columns: Seq<(u64, usize, bool)>, n: u64) -> bool {
    exists|a: int, q: int|
        #[trigger] sweep_reaches(magic_sum, rows, columns, a, q) && sweep_candidate(magic_sum, rows, columns, a, q) == n && (
        spec_is_square(n) || columns[q].2)
}

/// The third sweep reaches a candidate `n` that is not a square.
pub open spec fn third_sweep_keeps(magic_sum: u64, rows: Seq<(u64, usize)>, columns: Seq<(u64, usize, bool)>, n: u64) -> bool {
    exists|a: int, q: int|
        #[trigger] sweep_reaches(magic_sum, rows, columns, a, q) && sweep_candidate(magic_sum, rows, columns, a, q) == n
            && !spec_is_square(n)
}

/// The last sweep reaches a candidate `n` that is a square.
pub open spec fn last_sweep_keeps(magic_sum: u64, rows: Seq<(u64, usize)>, columns: Seq<(u64, usize, bool)>, n: u64) -> bool {
    exists|a: int, q: int|
        #[trigger] sweep_reaches(magic_sum, rows, columns, a, q) && sweep_candidate(magic_sum, rows, columns, a, q) == n
            && spec_is_square(n)
}

/// Every element that the first sweep adds is a candidate it reaches.
pub proof fn lemma_first_sweep_adds_only_candidates(
    sums: MagicSumsView,
    found: Seq<(u64, usize, bool)>,
    magic_sum: u64,
    rows: Seq<(u64, usize)>,
    columns: Seq<(u64, usize, bool)>,
)
    requires
        lookup_in_range(sums),
        sweep_indices_valid(sums, rows, columns),
    ensures
        grows_by(sums, sweep_rows(sums, found, SweepKind::Pairs, magic_sum, rows, columns, 0).0, |n: u64| first_sweep_keeps(magic_sum, rows, columns, n)),
{
    let after = sweep_rows(sums, found, SweepKind::Pairs, magic_sum, rows, columns, 0).0;
    lemma_sweep_rows_new_elements(sums, found, SweepKind::Pairs, magic_sum, rows, columns, 0);
    assert forall|e: int| sums.elements.len() <= e < after.elements.len() implies first_sweep_keeps(magic_sum, rows, columns, #[trigger] after.elements[e].number) by {
        let v = after.elements[e].number;
        assert(sweep_adds(magic_sum, rows, columns, SweepKind::Pairs, 0, v));
        let (a, q) = choose|a: int, q: int|
            #[trigger] sweep_reaches_kind(magic_sum, rows, columns, SweepKind::Pairs, 0, a, q) && sweep_candidate(magic_sum, rows, columns, a, q)
                == v && accepts(SweepKind::Pairs, spec_is_square(v), columns[q].2);
        assert(sweep_reaches_kind(magic_sum, rows, columns, SweepKind::Pairs, 0, a, q));
        assert(first_sweep_reaches(magic_sum, rows, columns, a, q));
    }
}

/// Every element that the second sweep adds is a candidate it reaches that
/// is a square or comes from a square addition.
pub proof fn lemma_second_sweep_adds_only_either_squares(
    sums: MagicSumsView,
    found: Seq<(u64, usize, bool)>,
    magic_sum: u64,
    rows: Seq<(u64, usize)>,
    columns: Seq<(u64, usize, bool)>,
)
    requires
        lookup_in_range(sums),
        sweep_indices_valid(sums, rows, columns),
    ensures
        grows_by(sums, sweep_rows(sums, found, SweepKind::EitherSquare, magic_sum, rows, columns, 0).0, |n: u64| second_sweep_keeps(magic_sum, rows, columns, n)),
{
    let after = sweep_rows(sums, found, SweepKind::EitherSquare, magic_sum, rows, columns, 0).0;
    lemma_sweep_rows_new_elements(sums, found, SweepKind::EitherSquare, magic_sum, rows, columns, 0);
    assert forall|e: int| sums.elements.len() <= e < after.elements.len() implies second_sweep_keeps(magic_sum, rows, columns, #[trigger] after.elements[e].number) by {
        let v = after.elements[e].number;
        assert(sweep_adds(magic_sum, rows, columns, SweepKind::EitherSquare, 0, v));
        let (a, q) = choose|a: int, q: int|
            #[trigger] sweep_reaches_kind(magic_sum, rows, columns, SweepKind::EitherSquare, 0, a, q) && sweep_candidate(magic_sum, rows, columns, a, q)
                == v && accepts(SweepKind::EitherSquare, spec_is_square(v), columns[q].2);
        assert(sweep_reaches(magic_sum, rows, columns, a, q));
    }
}

/// Every element that the third sweep adds is a candidate it reaches that
/// is not a square.
pub proof fn lemma_third_sweep_adds_only_non_squares(
    sums: MagicSumsView,
    found: Seq<(u64, usize, bool)>,
    magic_sum: u64,
    rows: Seq<(u64, usize)>,
    columns: Seq<(u64, usize, bool)>,
)
    requires
        lookup_in_range(sums),
        sweep_indices_valid(sums, rows, columns),
    ensures
        grows_by(sums, sweep_rows(sums, found, SweepKind::NonSquare, magic_sum, rows, columns, 0).0, |n: u64| third_sweep_keeps(magic_sum, rows, columns, n)),
{
    let after = sweep_rows(sums, found, SweepKind::NonSquare, magic_sum, rows, columns, 0).0;
    lemma_sweep_rows_new_elements(sums, found, SweepKind::NonSquare, magic_sum, rows, columns, 0);
    assert forall|e: int| sums.elements.len() <= e < after.elements.len() implies third_sweep_keeps(magic_sum, rows, columns, #[trigger] after.elements[e].number) by {
        let v = after.elements[e].number;
        assert(sweep_adds(magic_sum, rows, columns, SweepKind::NonSquare, 0, v));
        let (a, q) = choose|a: int, q: int|
            #[trigger] sweep_reaches_kind(magic_sum, rows, columns, SweepKind::NonSquare, 0, a, q) && sweep_candidate(magic_sum, rows, columns, a, q)
                == v && accepts(SweepKind::NonSquare, spec_is_square(v), columns[q].2);
        assert(sweep_reaches(magic_sum, rows, columns, a, q));
    }
}

/// Every element that the last sweep adds is a candidate it reaches that is
/// a square.
pub proof fn lemma_last_sweep_adds_only_squares(
    sums: MagicSumsView,
    found: Seq<(u64, usize, bool)>,
    magic_sum: u64,
    rows: Seq<(u64, usize)>,
    columns: Seq<(u64, usize, bool)>,
)
    requires
        lookup_in_range(sums),
        sweep_indices_valid(sums, rows, columns),
    ensures
        grows_by(sums, sweep_rows(sums, found, SweepKind::Square, magic_sum, rows, columns, 0).0, |n: u64| last_sweep_keeps(magic_sum, rows, columns, n)),
{
    let after = sweep_rows(sums, found, SweepKind::Square, magic_sum, rows, columns, 0).0;
    lemma_sweep_rows_new_elements(sums, found, SweepKind::Square, magic_sum, rows, columns, 0);
    assert forall|e: int| sums.elements.len() <= e < after.elements.len() implies last_sweep_keeps(magic_sum, rows, columns, #[trigger] after.elements[e].number) by {
        let v = after.elements[e].number;
        assert(sweep_adds(magic_sum, rows, columns, SweepKind::Square, 0, v));
        let (a, q) = choose|a: int, q: int|
            #[trigger] sweep_reaches_kind(magic_sum, rows, columns, SweepKind::Square, 0, a, q) && sweep_candidate(magic_sum, rows, columns, a, q)
                == v && accepts(SweepKind::Square, spec_is_square(v), columns[q].2);
        assert(sweep_reaches(magic_sum, rows, columns, a, q));
    }
}

/// The number `n` has a place in the table that `generate` builds: it is an
/// ordered square, or a candidate that one of the sweeps reaches and keeps.
pub open spec fn generated_number(
    magic_sum: u64,
    rows: Seq<(u64, usize)>,
    first: Seq<(u64, usize, bool)>,
    second: Seq<(u64, usize, bool)>,
    third: Seq<(u64, usize, bool)>,
    last: Seq<(u64, usize, bool)>,
    n: u64,
) -> bool {
    ||| named_by(rows, n)
    ||| first_sweep_keeps(magic_sum, rows, first, n)
    ||| second_sweep_keeps(magic_sum, rows, second, n)
    ||| third_sweep_keeps(magic_sum, rows, third, n)
    ||| last_sweep_keeps(magic_sum, rows, last, n)
}

/// `n` is the number of one of `rows`.
pub open spec fn named_by(rows: Seq<(u64, usize)>, n: u64) -> bool {
    exists|a: int| 0 <= a < rows.len() && #[trigger] rows[a].0 == n
}

/// Every element of the ordered squares' table is one of the ordered
/// squares.
proof fn lemma_fold_elements(sums: MagicSumsView, values: Seq<u64>)
    requires
        sums.elements.len() == 0,
    ensures
        forall|e: int|
            0 <= e < ordered_fold(sums, values).0.elements.len() ==> named_by(
                ordered_fold(sums, values).1,
                (#[trigger] ordered_fold(sums, values).0.elements[e]).number,
            ),
    decreases values.len(),
{
    let result = ordered_fold(sums, values);
    if values.len() > 0 {
        let rest = values.drop_last();
        lemma_fold_elements(sums, rest);
        let (earlier, ordered) = ordered_fold(sums, rest);
        let (later, found) = insert_outcome(earlier, values.last(), true, true);
        assert(result.0 == later);
        assert(result.1 == ordered.push((values.last(), found.unwrap().0)));
        assert forall|e: int| 0 <= e < later.elements.len() implies named_by(result.1, (#[trigger] result.0.elements[e]).number) by {
            if e < earlier.elements.len() {
                assert(later.elements[e] == earlier.elements[e]);
                assert(named_by(ordered, earlier.elements[e].number));
                let a = choose|a: int| 0 <= a < ordered.len() && #[trigger] ordered[a].0 == earlier.elements[e].number;
                assert(result.1[a] == ordered[a]);
            } else {
                assert(later.elements[e].number == values.last());
                assert(result.1[ordered.len() as int].0 == values.last());
            }
        }
    } else {
        assert(result.0.elements.len() == 0);
    }
}

proof fn lemma_indices_valid(sums: MagicSumsView, rows: Seq<(u64, usize)>, columns: Seq<(u64, usize, bool)>)
    requires
        sums.wf(),
        pairs_index_numbers(sums, rows),
        columns_index_numbers(sums, columns),
    ensures
        sweep_indices_valid(sums, rows, columns),
        lookup_in_range(sums),
{
}

/// Every number of the table after the four sweeps is an ordered square,
/// or a candidate that one of the sweeps reaches and keeps.
proof fn lemma_generate_explains(
    magic_sum: u64,
    squares: Seq<(u64, usize)>,
    sums1: MagicSumsView,
    sums2: MagicSumsView,
    sums3: MagicSumsView,
    sums4: MagicSumsView,
    sums5: MagicSumsView,
    cols1: Seq<(u64, usize, bool)>,
    cols2: Seq<(u64, usize, bool)>,
    cols3: Seq<(u64, usize, bool)>,
    cols4: Seq<(u64, usize, bool)>,
)
    requires
        forall|e: int| 0 <= e < sums1.elements.len() ==> named_by(squares, (#[trigger] sums1.elements[e]).number),
        sums2 == sweep_rows(sums1, Seq::empty(), SweepKind::Pairs, magic_sum, squares, cols1, 0).0,
        sums3 == sweep_rows(sums2, Seq::empty(), SweepKind::EitherSquare, magic_sum, squares, cols2, 0).0,
        sums4 == sweep_rows(sums3, Seq::empty(), SweepKind::NonSquare, magic_sum, squares, cols3, 0).0,
        sums5 == sweep_rows(sums4, Seq::empty(), SweepKind::Square, magic_sum, squares, cols4, 0).0,
        lookup_in_range(sums1),
        lookup_in_range(sums2),
        lookup_in_range(sums3),
        lookup_in_range(sums4),
        sweep_indices_valid(sums1, squares, cols1),
        sweep_indices_valid(sums2, squares, cols2),
        sweep_indices_valid(sums3, squares, cols3),
        sweep_indices_valid(sums4, squares, cols4),
    ensures
        forall|e: int|
            0 <= e < sums5.elements.len() ==> generated_number(
                magic_sum,
                squares,
                cols1,
                cols2,
                cols3,
                cols4,
                #[trigger] sums5.elements[e].number,
            ),
{
    lemma_first_sweep_adds_only_candidates(sums1, Seq::empty(), magic_sum, squares, cols1);
    lemma_second_sweep_adds_only_either_squares(sums2, Seq::empty(), magic_sum, squares, cols2);
    lemma_third_sweep_adds_only_non_squares(sums3, Seq::empty(), magic_sum, squares, cols3);
    lemma_last_sweep_adds_only_squares(sums4, Seq::empty(), magic_sum, squares, cols4);
    assert forall|e: int| 0 <= e < sums5.elements.len() implies generated_number(
        magic_sum,
        squares,
        cols1,
        cols2,
        cols3,
        cols4,
        #[trigger] sums5.elements[e].number,
    ) by {
        let v = sums5.elements[e].number;
        if e < sums4.elements.len() {
            assert(sums4.elements[e].number == v);
            if e < sums3.elements.len() {
                assert(sums3.elements[e].number == v);
                if e < sums2.elements.len() {
                    assert(sums2.elements[e].number == v);
                    if e < sums1.elements.len() {
                        assert(sums1.elements[e].number == v);
                    } else {
                        assert(first_sweep_keeps(magic_sum, squares, cols1, sums2.elements[e].number));
                    }
                } else {
                    assert(second_sweep_keeps(magic_sum, squares, cols2, sums3.elements[e].number));
                }
            } else {
                assert(third_sweep_keeps(magic_sum, squares, cols3, sums4.elements[e].number));
            }
        } else {
            assert(last_sweep_keeps(magic_sum, squares, cols4, sums5.elements[e].number));
        }
    }
}

/// The second sweep keeps every candidate it reaches where the candidate or
/// the first-sweep addition it came from is a square: every reached
/// candidate with a square value or a square addition is in the table's
/// lookup afterwards.
pub proof fn lemma_second_sweep_keeps_either_square(
    sums: MagicSumsView,
    found: Seq<(u64, usize, bool)>,
    magic_sum: u64,
    rows: Seq<(u64, usize)>,
    columns: Seq<(u64, usize, bool)>,
    a: int,
    q: int,
)
    requires
        sweep_reaches(magic_sum, rows, columns, a, q),
        spec_is_square(sweep_candidate(magic_sum, rows, columns, a, q)) || columns[q].2,
    ensures
        sweep_rows(sums, found, SweepKind::EitherSquare, magic_sum, rows, columns, 0).0.lookup.contains_key(
            spec_hash(sweep_candidate(magic_sum, rows, columns, a, q)),
        ),
{
    assert(sweep_reaches_kind(magic_sum, rows, columns, SweepKind::EitherSquare, 0, a, q));
    lemma_sweep_rows_reach(sums, found, SweepKind::EitherSquare, magic_sum, rows, columns, 0, a, q);
}

/// The first sweep keeps every candidate it reaches: each ordered square
/// with each later ordered square, while the remainder stays positive.
pub proof fn lemma_first_sweep_keeps_every_candidate(
    sums: MagicSumsView,
    found: Seq<(u64, usize, bool)>,
    magic_sum: u64,
    rows: Seq<(u64, usize)>,
    columns: Seq<(u64, usize, bool)>,
    a: int,
    q: int,
)
    requires
        first_sweep_reaches(magic_sum, rows, columns, a, q),
    ensures
        sweep_rows(sums, found, SweepKind::Pairs, magic_sum, rows, columns, 0).0.lookup.contains_key(
            spec_hash(sweep_candidate(magic_sum, rows, columns, a, q)),
        ),
{
    assert(sweep_reaches_kind(magic_sum, rows, columns, SweepKind::Pairs, 0, a, q));
    lemma_sweep_rows_reach(sums, found, SweepKind::Pairs, magic_sum, rows, columns, 0, a, q);
}

/// The third sweep keeps every candidate it reaches that is not a square.
pub proof fn lemma_third_sweep_keeps_non_squares(
    sums: MagicSumsView,
    found: Seq<(u64, usize, bool)>,
    magic_sum: u64,
    rows: Seq<(u64, usize)>,
    columns: Seq<(u64, usize, bool)>,
    a: int,
    q: int,
)
    requires
        sweep_reaches(magic_sum, rows, columns, a, q),
        !spec_is_square(sweep_candidate(magic_sum, rows, columns, a, q)),
    ensures
        sweep_rows(sums, found, SweepKind::NonSquare, magic_sum, rows, columns, 0).0.lookup.contains_key(
            spec_hash(sweep_candidate(magic_sum, rows, columns, a, q)),
        ),
{
    assert(sweep_reaches_kind(magic_sum, rows, columns, SweepKind::NonSquare, 0, a, q));
    lemma_sweep_rows_reach(sums, found, SweepKind::NonSquare, magic_sum, rows, columns, 0, a, q);
}

/// The last sweep keeps every candidate it reaches that is a square.
pub proof fn lemma_last_sweep_keeps_squares(
    sums: MagicSumsView,
    found: Seq<(u64, usize, bool)>,
    magic_sum: u64,
    rows: Seq<(u64, usize)>,
    columns: Seq<(u64, usize, bool)>,
    a: int,
    q: int,
)
    requires
        sweep_reaches(magic_sum, rows, columns, a, q),
        spec_is_square(sweep_candidate(magic_sum, rows, columns, a, q)),
    ensures
        sweep_rows(sums, found, SweepKind::Square, magic_sum, rows, columns, 0).0.lookup.contains_key(
            spec_hash(sweep_candidate(magic_sum, rows, columns, a, q)),
        ),
{
    assert(sweep_reaches_kind(magic_sum, rows, columns, SweepKind::Square, 0, a, q));
    lemma_sweep_rows_reach(sums, found, SweepKind::Square, magic_sum, rows, columns, 0, a, q);
}

proof fn lemma_sweep_rows_reach(
    sums: MagicSumsView,
    found: Seq<(u64, usize, bool)>,
    kind: SweepKind,
    magic_sum: u64,
    rows: Seq<(u64, usize)>,
    columns: Seq<(u64, usize, bool)>,
    a0: int,
    a: int,
    q: int,
)
    requires
        sweep_reaches_kind(magic_sum, rows, columns, kind, a0, a, q),
        accepts(kind, spec_is_square(sweep_candidate(magic_sum, rows, columns, a, q)), columns[q].2),
    ensures
        sweep_rows(sums, found, kind, magic_sum, rows, columns, a0).0.lookup.contains_key(
            spec_hash(sweep_candidate(magic_sum, rows, columns, a, q)),
        ),
    decreases a - a0,
{
    let key = spec_hash(sweep_candidate(magic_sum, rows, columns, a, q));
    let start = row_start(kind, rows[a0]);
    assert(start >= 0);
    let (after, recorded, stop) = sweep_row(sums, found, kind, magic_sum, rows[a0], columns, start);
    if a0 == a {
        lemma_sweep_row_adds(sums, found, kind, magic_sum, rows[a], columns, start, q);
        if !stop {
            lemma_sweep_rows_keep_keys(after, recorded, kind, magic_sum, rows, columns, a0 + 1, key);
        }
    } else {
        lemma_sweep_row_stops(sums, found, kind, magic_sum, rows[a0], columns, start);
        assert(!row_stops(magic_sum, rows[a0], columns, start));
        lemma_sweep_rows_reach(after, recorded, kind, magic_sum, rows, columns, a0 + 1, a, q);
    }
}

/// Pairs as columns (with no squareness).
pub open spec fn pairs_as_columns(pairs: Seq<(u64, usize)>) -> Seq<(u64, usize, bool)> {
    pairs.map_values(|p: (u64, usize)| (p.0, p.1, false))
}

/// Records as pairs (without their squareness).
pub open spec fn records_as_pairs(records: Seq<(u64, usize, bool)>) -> Seq<(u64, usize)> {
    records.map_values(|t: (u64, usize, bool)| (t.0, t.1))
}

/// Ascending order of candidate.
pub open spec fn candidate_le(a: (u64, usize, bool), b: (u64, usize, bool)) -> bool {
    a.0 <= b.0
}

/// The order of `sort_by_candidate`.
pub open spec fn by_candidate() -> spec_fn((u64, usize, bool), (u64, usize, bool)) -> bool {
    |a: (u64, usize, bool), b: (u64, usize, bool)| candidate_le(a, b)
}

/// The order of `sort_pairs`.
pub open spec fn by_pair() -> spec_fn((u64, usize), (u64, usize)) -> bool {
    |a: (u64, usize), b: (u64, usize)| pair_le(a, b)
}

/// The state that `generate` leaves for the center square `center_square`
/// and the numbers `bigger_numbers`: the ordered squares, the four sweeps
/// (each list of records sorted before the next sweep reads it), and the
/// pruning of the table.
pub open spec fn generated(center_square: u64, bigger_numbers: Seq<u32>) -> GraphView {
    let magic_sum = (3 * center_square) as u64;
    let empty = MagicSumsView { elements: Seq::empty(), lookup: Map::empty() };
    let (sums1, ordered) = ordered_fold(empty, ordered_square_values(center_square, bigger_numbers));
    let (sums2, first) = sweep_rows(sums1, Seq::empty(), SweepKind::Pairs, magic_sum, ordered, pairs_as_columns(ordered), 0);
    let first_sorted = first.sort_by(by_candidate());
    let (sums3, second) = sweep_rows(sums2, Seq::empty(), SweepKind::EitherSquare, magic_sum, ordered, first_sorted, 0);
    let second_sorted = records_as_pairs(second).sort_by(by_pair());
    let (sums4, third) = sweep_rows(sums3, Seq::empty(), SweepKind::NonSquare, magic_sum, ordered, pairs_as_columns(second_sorted), 0);
    let third_sorted = records_as_pairs(third).sort_by(by_pair());
    let (sums5, _) = sweep_rows(sums4, Seq::empty(), SweepKind::Square, magic_sum, ordered, pairs_as_columns(third_sorted), 0);
    GraphView {
        sums: sums5.pruned(),
        ordered_squares: ordered,
        additions1: first_sorted,
        square_additions2: second_sorted,
        non_square_additions3: third_sorted,
    }
}

/// Replacing the table by one that keeps the places, numbers and
/// squareness of the old elements keeps every list entry valid.
proof fn lemma_consistent_keep(g: GraphView, new_sums: MagicSumsView)
    requires
        g.consistent(),
        new_sums.wf(),
        new_sums.elements.len() >= g.sums.elements.len(),
        forall|x: int|
            0 <= x < g.sums.elements.len() ==> (#[trigger] new_sums.elements[x]).number
                == g.sums.elements[x].number && new_sums.elements[x].is_square
                == g.sums.elements[x].is_square,
    ensures
        (GraphView { sums: new_sums, ..g }).consistent(),
{
    lemma_pairs_keep(g.sums, new_sums, g.ordered_squares);
    lemma_triples_keep(g.sums, new_sums, g.additions1);
    lemma_pairs_keep(g.sums, new_sums, g.square_additions2);
    lemma_pairs_keep(g.sums, new_sums, g.non_square_additions3);
}

/// Each column `(number, index, _)` names an element whose number it is.
pub open spec fn columns_index_numbers(sums: MagicSumsView, columns: Seq<(u64, usize, bool)>) -> bool {
    forall|k: int|
        0 <= k < columns.len() ==> (#[trigger] columns[k]).1 < sums.elements.len()
            && sums.elements[columns[k].1 as int].number == columns[k].0
}

/// The table keeps the places, numbers and squareness of the elements of
/// `before`.
pub open spec fn keeps_elements(before: MagicSumsView, after: MagicSumsView) -> bool {
    &&& after.elements.len() >= before.elements.len()
    &&& forall|x: int|
        0 <= x < before.elements.len() ==> (#[trigger] after.elements[x]).number == before.elements[x].number
            && after.elements[x].is_square == before.elements[x].is_square
}

proof fn lemma_columns_keep(old_sums: MagicSumsView, new_sums: MagicSumsView, columns: Seq<(u64, usize, bool)>)
    requires
        columns_index_numbers(old_sums, columns),
        keeps_elements(old_sums, new_sums),
    ensures
        columns_index_numbers(new_sums, columns),
{
    assert forall|k: int| 0 <= k < columns.len() implies (#[trigger] columns[k]).1 < new_sums.elements.len()
        && new_sums.elements[columns[k].1 as int].number == columns[k].0 by {
        assert(old_sums.elements[columns[k].1 as int].number == columns[k].0);
    }
}

/// Whether a sweep keeps a new candidate (see `accepts`).
fn accepts_candidate(kind: SweepKind, candidate_is_square: bool, column_is_square: bool) -> (accept: bool)
    ensures
        accept == accepts(kind, candidate_is_square, column_is_square),
{
    match kind {
        SweepKind::Pairs => true,
        SweepKind::EitherSquare => candidate_is_square || column_is_square,
        SweepKind::NonSquare => !candidate_is_square,
        SweepKind::Square => candidate_is_square,
    }
}

/// Pairs as columns with no squareness.
fn pairs_to_columns(pairs: &Vec<(u64, usize)>) -> (columns: Vec<(u64, usize, bool)>)
    ensures
        columns@ == pairs_as_columns(pairs@),
{
    let mut columns: Vec<(u64, usize, bool)> = Vec::new();
    let mut k: usize = 0;
    while k < pairs.len()
        invariant
            0 <= k <= pairs@.len(),
            columns@ == pairs_as_columns(pairs@.take(k as int)),
        decreases pairs.len() - k,
    {
        let (number, index) = pairs[k];
        columns.push((number, index, false));
        proof {
            assert(pairs_as_columns(pairs@.take(k + 1)) =~= pairs_as_columns(pairs@.take(k as int)).push(
                (number, index, false),
            ));
        }
        k = k + 1;
    }
    proof {
        assert(pairs@.take(pairs@.len() as int) =~= pairs@);
    }
    columns
}

/// Records as pairs, without their squareness.
fn records_to_pairs(records: &Vec<(u64, usize, bool)>) -> (pairs: Vec<(u64, usize)>)
    ensures
        pairs@ == records_as_pairs(records@),
{
    let mut pairs: Vec<(u64, usize)> = Vec::new();
    let mut k: usize = 0;
    while k < records.len()
        invariant
            0 <= k <= records@.len(),
            pairs@ == records_as_pairs(records@.take(k as int)),
        decreases records.len() - k,
    {
        let (number, index, _) = records[k];
        pairs.push((number, index));
        proof {
            assert(records_as_pairs(records@.take(k + 1)) =~= records_as_pairs(records@.take(k as int)).push(
                (number, index),
            ));
        }
        k = k + 1;
    }
    proof {
        assert(records@.take(records@.len() as int) =~= records@);
    }
    pairs
}

/// Runs one sweep (see `sweep_rows`): the rows are the ordered squares,
/// the kept candidates are appended to `found`.
fn sweep(
    sums: &mut MagicSums,
    rows: &Vec<(u64, usize)>,
    columns: &Vec<(u64, usize, bool)>,
    kind: SweepKind,
    magic_sum: u64,
    found: &mut Vec<(u64, usize, bool)>,
)
    requires
        old(sums).wf(),
        old(sums)@.partners_even(),
        old(sums)@.indexed(),
        partnerships_complete(old(sums)@.elements, magic_sum as int),
        partner_pairs_complete(old(sums)@.elements, magic_sum as int),
        old(sums)@.partners_symmetric(),
        pairs_index_numbers(old(sums)@, rows@),
        columns_index_numbers(old(sums)@, columns@),
        triples_index_numbers(old(sums)@, old(found)@),
        forall|a: int| 0 <= a < rows@.len() ==> (#[trigger] rows@[a]).0 <= magic_sum,
    ensures
        (final(sums)@, final(found)@) == sweep_rows(old(sums)@, old(found)@, kind, magic_sum, rows@, columns@, 0),
        final(sums).wf(),
        final(sums)@.partners_even(),
        final(sums)@.indexed(),
        partnerships_complete(final(sums)@.elements, magic_sum as int),
        partner_pairs_complete(final(sums)@.elements, magic_sum as int),
        final(sums)@.partners_symmetric(),
        keeps_elements(old(sums)@, final(sums)@),
        triples_index_numbers(final(sums)@, final(found)@),
{
    let count = rows.len();
    let mut a: usize = 0;
    let mut stop = false;
    while a < count && !stop
        invariant
            count == rows@.len(),
            0 <= a <= count,
            sums.wf(),
            sums@.partners_even(),
            sums@.indexed(),
            partnerships_complete(sums@.elements, magic_sum as int),
            partner_pairs_complete(sums@.elements, magic_sum as int),
            sums@.partners_symmetric(),
            pairs_index_numbers(sums@, rows@),
            columns_index_numbers(sums@, columns@),
            triples_index_numbers(sums@, found@),
            keeps_elements(old(sums)@, sums@),
            forall|x: int| 0 <= x < rows@.len() ==> (#[trigger] rows@[x]).0 <= magic_sum,
            sweep_rows(old(sums)@, old(found)@, kind, magic_sum, rows@, columns@, 0) == if stop {
                (sums@, found@)
            } else {
                sweep_rows(sums@, found@, kind, magic_sum, rows@, columns@, a as int)
            },
        decreases count - a,
    {
        let (square, i) = rows[a];
        proof {
            assert(rows@[a as int].0 <= magic_sum);
            assert(rows@[a as int].1 < sums@.elements.len());
        }
        let remainder = magic_sum - square;
        let element_count = sums.len();
        let start = match kind {
            SweepKind::Pairs => i + 1,
            _ => 0,
        };
        let ghost row_sums = sums@;
        let ghost row_found = found@;
        let ghost row = rows@[a as int];
        let mut c = start;
        let mut row_stop = false;
        while c < columns.len()
            invariant_except_break
                !row_stop,
            invariant
                count == rows@.len(),
                0 <= a < count,
                row == rows@[a as int],
                row == (square, i),
                start == row_start(kind, row),
                start <= c,
                remainder == magic_sum - square,
                sums.wf(),
                sums@.partners_even(),
                sums@.indexed(),
                partnerships_complete(sums@.elements, magic_sum as int),
                partner_pairs_complete(sums@.elements, magic_sum as int),
                sums@.partners_symmetric(),
            partner_pairs_complete(sums@.elements, magic_sum as int),
            sums@.partners_symmetric(),
                pairs_index_numbers(sums@, rows@),
                columns_index_numbers(sums@, columns@),
                triples_index_numbers(sums@, found@),
                keeps_elements(old(sums)@, sums@),
                i < sums@.elements.len(),
                sums@.elements[i as int].number == square,
                sweep_row(row_sums, row_found, kind, magic_sum, row, columns@, start as int) == sweep_row(
                    sums@,
                    found@,
                    kind,
                    magic_sum,
                    row,
                    columns@,
                    c as int,
                ),
            ensures
                sweep_row(row_sums, row_found, kind, magic_sum, row, columns@, start as int) == (sums@, found@, row_stop),
                sums.wf(),
                sums@.partners_even(),
                sums@.indexed(),
                partnerships_complete(sums@.elements, magic_sum as int),
                partner_pairs_complete(sums@.elements, magic_sum as int),
                sums@.partners_symmetric(),
            partner_pairs_complete(sums@.elements, magic_sum as int),
            sums@.partners_symmetric(),
                pairs_index_numbers(sums@, rows@),
                columns_index_numbers(sums@, columns@),
                triples_index_numbers(sums@, found@),
                keeps_elements(old(sums)@, sums@),
            decreases columns.len() - c,
        {
            let (value, j, column_is_square) = columns[c];
            proof {
                assert(columns@[c as int] == (value, j, column_is_square));
            }
            let candidate = remainder.saturating_sub(value);
            if candidate == 0 {
                row_stop = j == 0;
                break;
            }
            let ghost before = sums@;
            let ghost before_found = found@;
            let ghost candidate_is_square = spec_is_square(candidate);
            let outcome = sums.get_or_insert_element(
                candidate,
                || -> (square: bool) ensures square == spec_is_square(candidate) { is_square(candidate) },
                move |is_square: bool| -> (accept: bool) ensures accept == accepts(kind, is_square, column_is_square) { accepts_candidate(kind, is_square, column_is_square) },
            );
            proof {
                assert((sums@, outcome) == insert_outcome(before, candidate, candidate_is_square, accepts(kind, candidate_is_square, column_is_square)));
                lemma_complete_after_insert(before, sums@, magic_sum as int);
                lemma_pairs_after_insert(before, sums@, magic_sum as int);
                lemma_pairs_keep(before, sums@, rows@);
                lemma_columns_keep(before, sums@, columns@);
                lemma_triples_keep(before, sums@, found@);
            }
            match outcome {
                Some((k, k_is_square)) => {
                    match kind {
                        SweepKind::Square => {},
                        _ => {
                            let ghost inserted = sums@;
                            sums.add_partnership(i, j, k);
                            proof {
                                lemma_complete_after_partnership(inserted, i, j, k, magic_sum as int);
                                lemma_pairs_after_partnership(inserted, i, j, k, magic_sum as int);
                                lemma_pairs_keep(inserted, sums@, rows@);
                                lemma_columns_keep(inserted, sums@, columns@);
                                lemma_triples_keep(inserted, sums@, found@);
                            }
                            let ghost partnered = found@;
                            found.push((candidate, k, k_is_square));
                            proof {
                                assert forall|e: int| 0 <= e < found@.len() implies (#[trigger] found@[e]).1
                                    < sums@.elements.len() && sums@.elements[found@[e].1 as int].number == found@[e].0
                                    && sums@.elements[found@[e].1 as int].is_square == found@[e].2 by {
                                    if e < partnered.len() {
                                        assert(found@[e] == partnered[e]);
                                    }
                                }
                            }
                        },
                    }
                },
                None => {},
            }
            c = c + 1;
        }
        stop = row_stop;
        a = a + 1;
    }
}

impl Graph {
    /// The state of the graph is consistent (see `GraphView::consistent`).
    pub open spec fn wf(&self) -> bool {
        self@.consistent()
    }

    /// The state is consistent and every recorded partnership completes the
    /// magic sum.
    pub open spec fn sound(&self, magic_sum: int) -> bool {
        &&& self@.consistent()
        &&& partnerships_complete(self@.sums.elements, magic_sum)
        &&& partner_pairs_complete(self@.sums.elements, magic_sum)
        &&& self@.sums.partners_symmetric()
        &&& self@.sums.partners_even()
        &&& self@.sums.indexed()
    }

    /// An empty graph.
    pub fn new() -> (graph: Self)
        ensures
            graph.wf(),
            graph@.sums.elements == Seq::<ElementView>::empty(),
            graph@.sums.lookup == Map::<u64, usize>::empty(),
            graph@.ordered_squares == Seq::<(u64, usize)>::empty(),
            graph@.additions1 == Seq::<(u64, usize, bool)>::empty(),
            graph@.square_additions2 == Seq::<(u64, usize)>::empty(),
            graph@.non_square_additions3 == Seq::<(u64, usize)>::empty(),
    {
        Graph {
            ordered_squares: Vec::new(),
            magic_sums: MagicSums::default(),
            additions1: Vec::new(),
            square_additions2: Vec::new(),
            non_square_additions3: Vec::new(),
        }
    }

    /// Finds or adds the element of `square`, taken to be a square, and
    /// appends it with its index to the ordered squares.
    fn push_ordered_square(&mut self, square: u64, Ghost(magic_sum): Ghost<int>)
        requires
            old(self).sound(magic_sum),
            old(self)@.sums.elements.len() <= old(self)@.ordered_squares.len(),
            forall|a: int|
                0 <= a < old(self)@.ordered_squares.len() ==> (#[trigger] old(self)@.ordered_squares[a]).1
                    <= a,
        ensures
            final(self).sound(magic_sum),
            final(self)@.sums.elements.len() <= final(self)@.ordered_squares.len(),
            forall|a: int|
                0 <= a < final(self)@.ordered_squares.len() ==> (#[trigger] final(self)@.ordered_squares[a]).1
                    <= a,
            final(self)@.ordered_squares.len() == old(self)@.ordered_squares.len() + 1,
            final(self)@.ordered_squares.drop_last() == old(self)@.ordered_squares,
            final(self)@.ordered_squares.last().0 == square,
            ({
                let outcome = insert_outcome(old(self)@.sums, square, true, true);
                &&& final(self)@.sums == outcome.0
                &&& outcome.1 is Some
                &&& final(self)@.ordered_squares.last() == (square, outcome.1.unwrap().0)
            }),
            final(self)@.additions1 == old(self)@.additions1,
            final(self)@.square_additions2 == old(self)@.square_additions2,
            final(self)@.non_square_additions3 == old(self)@.non_square_additions3,
    {
        let ghost before = self@;
        let found = self.magic_sums.get_or_insert_element(
            square,
            || -> (square: bool) ensures square { true },
            |_is_square: bool| -> (accept: bool) ensures accept { true },
        );
        let (i, _) = found.unwrap();
        proof {
            lemma_consistent_keep(before, self.magic_sums@);
            lemma_complete_after_insert(before.sums, self.magic_sums@, magic_sum);
            lemma_pairs_after_insert(before.sums, self.magic_sums@, magic_sum);
        }
        self.ordered_squares.push((square, i));
        proof {
            let g = self@;
            assert(g.ordered_squares.drop_last() =~= before.ordered_squares);
            assert forall|k: int| 0 <= k < g.ordered_squares.len() implies (#[trigger] g.ordered_squares[k]).1
                < g.sums.elements.len() && g.sums.elements[g.ordered_squares[k].1 as int].number
                == g.ordered_squares[k].0 by {
                if k < before.ordered_squares.len() {
                    assert(g.ordered_squares[k] == before.ordered_squares[k]);
                }
            }
        }
    }

    /// Rebuilds the graph for the center square `center_square` from the
    /// numbers whose squares pair up to twice the center: the ordered
    /// squares, then the three sweeps of candidates (each list sorted before
    /// it is swept), the last sweep, and finally the pruning of every number
    /// left with a single partner.
    #[verifier::rlimit(60)]
    pub fn generate(&mut self, center_square: u64, bigger_numbers: Vec<u32>)
        requires
            3 * center_square <= u64::MAX,
            forall|k: int|
                0 <= k < bigger_numbers.len() ==> #[trigger] bigger_numbers[k] * bigger_numbers[k] <= 2
                    * center_square,
        ensures
            final(self).wf(),
            final(self)@.ordered_squares.len() == 2 * bigger_numbers.len(),
            forall|k: int|
                0 <= k < final(self)@.ordered_squares.len() ==> (#[trigger] final(self)@.ordered_squares[k]).0
                    == ordered_square_values(center_square, bigger_numbers@)[k],
            partnerships_complete(final(self)@.sums.elements, magic_sum_of(center_square)),
            partner_pairs_complete(final(self)@.sums.elements, magic_sum_of(center_square)),
            final(self)@.sums.partners_symmetric(),
            final(self)@.sums.partners_even(),
            final(self)@.sums.indexed(),
            sorted_by(final(self)@.additions1, by_candidate()),
            sorted_by(final(self)@.square_additions2, by_pair()),
            sorted_by(final(self)@.non_square_additions3, by_pair()),
            final(self)@ == generated(center_square, bigger_numbers@),
            forall|a: int, q: int|
                #[trigger] sweep_reaches((3 * center_square) as u64, final(self)@.ordered_squares, final(self)@.additions1, a, q)
                    && (spec_is_square(
                    sweep_candidate((3 * center_square) as u64, final(self)@.ordered_squares, final(self)@.additions1, a, q),
                ) || final(self)@.additions1[q].2) ==> holds_number(
                    final(self)@.sums,
                    sweep_candidate((3 * center_square) as u64, final(self)@.ordered_squares, final(self)@.additions1, a, q),
                ),
            ({
                let magic = (3 * center_square) as u64;
                let rows = final(self)@.ordered_squares;
                let first = pairs_as_columns(rows);
                let third = pairs_as_columns(final(self)@.square_additions2);
                let last = pairs_as_columns(final(self)@.non_square_additions3);
                &&& forall|a: int, q: int|
                    #[trigger] first_sweep_reaches(magic, rows, first, a, q) ==> holds_number(
                        final(self)@.sums,
                        sweep_candidate(magic, rows, first, a, q),
                    )
                &&& forall|a: int, q: int|
                    #[trigger] sweep_reaches(magic, rows, third, a, q) && !spec_is_square(sweep_candidate(magic, rows, third, a, q))
                        ==> holds_number(final(self)@.sums, sweep_candidate(magic, rows, third, a, q))
                &&& forall|a: int, q: int|
                    #[trigger] sweep_reaches(magic, rows, last, a, q) && spec_is_square(sweep_candidate(magic, rows, last, a, q))
                        ==> holds_number(final(self)@.sums, sweep_candidate(magic, rows, last, a, q))
                &&& forall|e: int|
                    0 <= e < final(self)@.sums.elements.len() ==> generated_number(
                        magic,
                        rows,
                        first,
                        final(self)@.additions1,
                        third,
                        last,
                        #[trigger] final(self)@.sums.elements[e].number,
                    )
            }),
    {
        self.magic_sums.clear();
        self.ordered_squares.clear();
        self.additions1.clear();
        self.square_additions2.clear();
        self.non_square_additions3.clear();

        let center_sum = center_square + center_square;
        let magic_sum = center_sum + center_square;
        let ghost values = ordered_square_values(center_square, bigger_numbers@);
        let count = bigger_numbers.len();
        proof {
            assert(self@.sums.elements.len() == 0);
            assert(self@.sums =~= MagicSumsView { elements: Seq::empty(), lookup: Map::empty() });
            assert(values.take(0) =~= Seq::<u64>::empty());
        }

        let mut k = count;
        while k > 0
            invariant
                count == bigger_numbers.len(),
                0 <= k <= count,
                center_sum == 2 * center_square,
                magic_sum == 3 * center_square,
                values == ordered_square_values(center_square, bigger_numbers@),
                forall|x: int|
                    0 <= x < bigger_numbers.len() ==> #[trigger] bigger_numbers[x] * bigger_numbers[x] <= 2
                        * center_square,
                self.sound(magic_sum as int),
                self@.sums.elements.len() <= self@.ordered_squares.len(),
                self@.ordered_squares.len() == count - k,
                (self@.sums, self@.ordered_squares) == ordered_fold(
                    MagicSumsView { elements: Seq::empty(), lookup: Map::empty() },
                    values.take(count - k),
                ),
                forall|a: int|
                    0 <= a < self@.ordered_squares.len() ==> (#[trigger] self@.ordered_squares[a]).1 <= a
                        && self@.ordered_squares[a].0 == values[a],
                self@.additions1.len() == 0,
                self@.square_additions2.len() == 0,
                self@.non_square_additions3.len() == 0,
            decreases k,
        {
            k = k - 1;
            let n = bigger_numbers[k] as u64;
            proof {
                assert(bigger_numbers[k as int] * bigger_numbers[k as int] <= 2 * center_square);
            }
            let square = center_sum - n * n;
            let ghost before = self@;
            self.push_ordered_square(square, Ghost(magic_sum as int));
            proof {
                let done = before.ordered_squares.len() as int;
                assert(values.take(done + 1).drop_last() =~= values.take(done));
                assert(values.take(done + 1).last() == square);
                let g = self@;
                assert forall|a: int| 0 <= a < g.ordered_squares.len() implies (#[trigger] g.ordered_squares[a]).1
                    <= a && g.ordered_squares[a].0 == values[a] by {
                    if a < before.ordered_squares.len() {
                        assert(g.ordered_squares[a] == g.ordered_squares.drop_last()[a]);
                    }
                }
            }
        }
        let mut k: usize = 0;
        while k < count
            invariant
                count == bigger_numbers.len(),
                0 <= k <= count,
                center_sum == 2 * center_square,
                magic_sum == 3 * center_square,
                values == ordered_square_values(center_square, bigger_numbers@),
                forall|x: int|
                    0 <= x < bigger_numbers.len() ==> #[trigger] bigger_numbers[x] * bigger_numbers[x] <= 2
                        * center_square,
                self.sound(magic_sum as int),
                self@.sums.elements.len() <= self@.ordered_squares.len(),
                self@.ordered_squares.len() == count + k,
                (self@.sums, self@.ordered_squares) == ordered_fold(
                    MagicSumsView { elements: Seq::empty(), lookup: Map::empty() },
                    values.take(count + k),
                ),
                forall|a: int|
                    0 <= a < self@.ordered_squares.len() ==> (#[trigger] self@.ordered_squares[a]).1 <= a
                        && self@.ordered_squares[a].0 == values[a],
                self@.additions1.len() == 0,
                self@.square_additions2.len() == 0,
                self@.non_square_additions3.len() == 0,
            decreases count - k,
        {
            let n = bigger_numbers[k] as u64;
            proof {
                assert(n * n <= u64::MAX) by (nonlinear_arith)
                    requires
                        n <= u32::MAX,
                ;
            }
            let square = n * n;
            let ghost before = self@;
            self.push_ordered_square(square, Ghost(magic_sum as int));
            proof {
                let done = before.ordered_squares.len() as int;
                assert(values.take(done + 1).drop_last() =~= values.take(done));
                assert(values.take(done + 1).last() == square);
                let g = self@;
                assert forall|a: int| 0 <= a < g.ordered_squares.len() implies (#[trigger] g.ordered_squares[a]).1
                    <= a && g.ordered_squares[a].0 == values[a] by {
                    if a < before.ordered_squares.len() {
                        assert(g.ordered_squares[a] == g.ordered_squares.drop_last()[a]);
                    }
                }
            }
            k = k + 1;
        }
        proof {
            assert forall|a: int| 0 <= a < self@.ordered_squares.len() implies (#[trigger] self@.ordered_squares[a]).0
                <= magic_sum by {
                let n = bigger_numbers.len() as int;
                if a < n {
                    assert(bigger_numbers[n - 1 - a] * bigger_numbers[n - 1 - a] <= 2 * center_square);
                } else {
                    assert(bigger_numbers[a - n] * bigger_numbers[a - n] <= 2 * center_square);
                }
            }
        }
        let ghost squares = self@.ordered_squares;
        let ghost sums1 = self@.sums;
        proof {
            assert(values.take(values.len() as int) =~= values);
            assert(self@.additions1 =~= Seq::<(u64, usize, bool)>::empty());
        }

        let columns = pairs_to_columns(&self.ordered_squares);
        proof {
            assert forall|k: int| 0 <= k < columns@.len() implies (#[trigger] columns@[k]).1 < sums1.elements.len()
                && sums1.elements[columns@[k].1 as int].number == columns@[k].0 by {
                assert(columns@[k] == (squares[k].0, squares[k].1, false));
            }
        }
        let ghost cols1 = columns@;
        proof {
            lemma_indices_valid(self@.sums, squares, cols1);
        }
        sweep(&mut self.magic_sums, &self.ordered_squares, &columns, SweepKind::Pairs, magic_sum, &mut self.additions1);
        let ghost sums2 = self@.sums;
        proof {
            assert(sums2 == sweep_rows(sums1, Seq::empty(), SweepKind::Pairs, magic_sum, squares, cols1, 0).0);
        }
        let ghost first = self@.additions1;
        sort_by_candidate(&mut self.additions1);
        proof {
            lemma_triples_sorted(sums2, first, self@.additions1);
            lemma_pairs_keep(sums1, sums2, squares);
        }

        let mut second: Vec<(u64, usize, bool)> = Vec::new();
        proof {
            assert forall|k: int| 0 <= k < self@.additions1.len() implies (#[trigger] self@.additions1[k]).1
                < sums2.elements.len() && sums2.elements[self@.additions1[k].1 as int].number
                == self@.additions1[k].0 by {
                assert(triples_index_numbers(sums2, self@.additions1));
            }
        }
        let ghost cols2 = self@.additions1;
        let ghost sums2b = self@.sums;
        proof {
            assert(sums2b == sums2);
            lemma_indices_valid(sums2b, squares, cols2);
        }
        sweep(&mut self.magic_sums, &self.ordered_squares, &self.additions1, SweepKind::EitherSquare, magic_sum, &mut second);
        let ghost sums3 = self@.sums;
        proof {
            assert(sums3 == sweep_rows(sums2b, Seq::empty(), SweepKind::EitherSquare, magic_sum, squares, cols2, 0).0);
        }
        let mut square_additions = records_to_pairs(&second);
        proof {
            assert forall|k: int| 0 <= k < square_additions@.len() implies (#[trigger] square_additions@[k]).1
                < sums3.elements.len() && sums3.elements[square_additions@[k].1 as int].number
                == square_additions@[k].0 by {
                assert(square_additions@[k] == (second@[k].0, second@[k].1));
            }
        }
        let ghost unsorted_second = square_additions@;
        sort_pairs(&mut square_additions);
        proof {
            lemma_pairs_sorted(sums3, unsorted_second, square_additions@);
        }
        self.square_additions2 = square_additions;

        let columns = pairs_to_columns(&self.square_additions2);
        proof {
            assert forall|k: int| 0 <= k < columns@.len() implies (#[trigger] columns@[k]).1 < sums3.elements.len()
                && sums3.elements[columns@[k].1 as int].number == columns@[k].0 by {
                assert(columns@[k] == (self@.square_additions2[k].0, self@.square_additions2[k].1, false));
            }
            lemma_pairs_keep(sums2, sums3, squares);
        }
        let mut third: Vec<(u64, usize, bool)> = Vec::new();
        let ghost cols3 = columns@;
        proof {
            lemma_indices_valid(self@.sums, squares, cols3);
        }
        sweep(&mut self.magic_sums, &self.ordered_squares, &columns, SweepKind::NonSquare, magic_sum, &mut third);
        let ghost sums4 = self@.sums;
        proof {
            assert(sums4 == sweep_rows(sums3, Seq::empty(), SweepKind::NonSquare, magic_sum, squares, cols3, 0).0);
        }
        let mut non_square_additions = records_to_pairs(&third);
        proof {
            assert forall|k: int| 0 <= k < non_square_additions@.len() implies (#[trigger] non_square_additions@[k]).1
                < sums4.elements.len() && sums4.elements[non_square_additions@[k].1 as int].number
                == non_square_additions@[k].0 by {
                assert(non_square_additions@[k] == (third@[k].0, third@[k].1));
            }
        }
        let ghost unsorted_third = non_square_additions@;
        sort_pairs(&mut non_square_additions);
        proof {
            lemma_pairs_sorted(sums4, unsorted_third, non_square_additions@);
        }
        self.non_square_additions3 = non_square_additions;

        let columns = pairs_to_columns(&self.non_square_additions3);
        proof {
            assert forall|k: int| 0 <= k < columns@.len() implies (#[trigger] columns@[k]).1 < sums4.elements.len()
                && sums4.elements[columns@[k].1 as int].number == columns@[k].0 by {
                assert(columns@[k] == (self@.non_square_additions3[k].0, self@.non_square_additions3[k].1, false));
            }
            lemma_pairs_keep(sums3, sums4, squares);
        }
        let mut fourth: Vec<(u64, usize, bool)> = Vec::new();
        let ghost cols4 = columns@;
        proof {
            lemma_indices_valid(self@.sums, squares, cols4);
        }
        sweep(&mut self.magic_sums, &self.ordered_squares, &columns, SweepKind::Square, magic_sum, &mut fourth);
        let ghost sums5 = self@.sums;
        proof {
            assert(sums5 == sweep_rows(sums4, Seq::empty(), SweepKind::Square, magic_sum, squares, cols4, 0).0);
        }
        proof {
            lemma_pairs_keep(sums4, sums5, squares);
            lemma_triples_keep(sums2, sums3, self@.additions1);
            lemma_triples_keep(sums3, sums4, self@.additions1);
            lemma_triples_keep(sums4, sums5, self@.additions1);
            lemma_pairs_keep(sums3, sums4, self@.square_additions2);
            lemma_pairs_keep(sums4, sums5, self@.square_additions2);
            lemma_pairs_keep(sums4, sums5, self@.non_square_additions3);
            assert(self@.consistent());
        }

        self.magic_sums.remove_if_less_than_two_partners();
        proof {
            crate::magic_sums::lemma_even_tables_are_pruned(sums5);
            assert(self@.sums == sums5);
            assert(self@.ordered_squares == squares);
            let g = generated(center_square, bigger_numbers@);
            assert(g.ordered_squares == squares);
            assert(g.sums == sums5.pruned());
            assert(self@ == g);
            assert(self@.additions1 == cols2);
            assert(cols1 == pairs_as_columns(self@.ordered_squares));
            assert(cols3 == pairs_as_columns(self@.square_additions2));
            assert(cols4 == pairs_as_columns(self@.non_square_additions3));
            lemma_generate_keeps(magic_sum, squares, sums1, sums2b, sums3, sums4, sums5, cols1, cols2, cols3, cols4);
            lemma_fold_elements(MagicSumsView { elements: Seq::empty(), lookup: Map::empty() }, values);
            lemma_generate_explains(magic_sum, squares, sums1, sums2b, sums3, sums4, sums5, cols1, cols2, cols3, cols4);
        }
    }

    /// The table of numbers and partnerships.
    pub fn magic_sums(&self) -> (sums: &MagicSums)
        ensures
            sums@ == self@.sums,
    {
        &self.magic_sums
    }
}

} // verus!
