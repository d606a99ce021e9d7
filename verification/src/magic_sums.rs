use crate::hashing::{hash, nohash_map_get, nohash_map_insert, nohash_map_remove, spec_hash, NoHashMap};
use vstd::prelude::*;

verus! {

/// What the search knows of one number: its value, whether it is a perfect
/// square, and the indices of the numbers it completes a magic sum with.
pub struct ElementView {
    pub number: u64,
    pub is_square: bool,
    pub partners: Seq<usize>,
}

/// The abstract state of a table of magic-sum candidates: its elements in
/// insertion order, and the lookup from the hash of a number to its index.
pub struct MagicSumsView {
    pub elements: Seq<ElementView>,
    pub lookup: Map<u64, usize>,
}

/// The sum of the partner-list lengths over a sequence of elements.
pub open spec fn total_partners(elements: Seq<ElementView>) -> nat
    decreases elements.len(),
{
    if elements.len() == 0 {
        0
    } else {
        total_partners(elements.drop_last()) + elements.last().partners.len()
    }
}

/// Keeps every index but `index`.
pub open spec fn other_than(index: usize) -> spec_fn(usize) -> bool {
    |k: usize| k != index
}

impl ElementView {
    /// The same element with a new partner list.
    pub open spec fn with_partners(self, partners: Seq<usize>) -> ElementView {
        ElementView { number: self.number, is_square: self.is_square, partners }
    }
}

impl MagicSumsView {
    /// The table is consistent: every lookup entry leads to an element whose
    /// number has that hash, and every partner index names an element.
    pub open spec fn wf(self) -> bool {
        &&& forall|key: u64| #[trigger]
            self.lookup.contains_key(key) ==> self.lookup[key] < self.elements.len()
                && spec_hash(self.elements[self.lookup[key] as int].number) == key
        &&& forall|i: int, k: int|
            0 <= i < self.elements.len() && 0 <= k < self.elements[i].partners.len()
                ==> #[trigger] self.elements[i].partners[k] < self.elements.len()
    }

    /// The table after appending a new element for `number`, found by its hash.
    pub open spec fn with_element(self, number: u64, is_square: bool) -> MagicSumsView {
        MagicSumsView {
            elements: self.elements.push(ElementView { number, is_square, partners: Seq::empty() }),
            lookup: self.lookup.insert(spec_hash(number), self.elements.len() as usize),
        }
    }

    /// The table after appending `a` and then `b` to the partners of element `index`.
    pub open spec fn with_partners_appended(self, index: usize, a: usize, b: usize) -> MagicSumsView {
        MagicSumsView {
            elements: self.elements.update(
                index as int,
                self.elements[index as int].with_partners(
                    self.elements[index as int].partners.push(a).push(b),
                ),
            ),
            lookup: self.lookup,
        }
    }

    /// The table after recording that the three elements complete a magic sum
    /// together: each gets the other two as partners, in that order.
    pub open spec fn with_partnership(self, i1: usize, i2: usize, i3: usize) -> MagicSumsView {
        self.with_partners_appended(i1, i2, i3).with_partners_appended(i2, i1, i3).with_partners_appended(
            i3,
            i1,
            i2,
        )
    }

    /// Every element is found by its number: the lookup holds the hash of its
    /// number and leads back to it.
    pub open spec fn indexed(self) -> bool {
        forall|i: int|
            0 <= i < self.elements.len() ==> self.lookup.contains_key(spec_hash(#[trigger] self.elements[i].number))
                && self.lookup[spec_hash(self.elements[i].number)] == i
    }

    /// Every partner list has an even length.
    pub open spec fn partners_even(self) -> bool {
        forall|i: int| 0 <= i < self.elements.len() ==> #[trigger] self.elements[i].partners.len() % 2 == 0
    }

    /// Removes element `i`, which has a single partner `j`: `i` leaves the
    /// lookup, loses its partner, and `j` loses every mention of `i`.
    pub open spec fn peel(self, i: int) -> MagicSumsView {
        let j = self.elements[i].partners[0];
        let cleared = self.elements.update(i, self.elements[i].with_partners(Seq::empty()));
        let elements = if 0 <= j < cleared.len() {
            cleared.update(
                j as int,
                cleared[j as int].with_partners(cleared[j as int].partners.filter(other_than(i as usize))),
            )
        } else {
            cleared
        };
        MagicSumsView { elements, lookup: self.lookup.remove(spec_hash(self.elements[i].number)) }
    }

    /// One sweep over the elements from index `i` on, peeling each element
    /// that has exactly one partner when the sweep reaches it; also says
    /// whether anything was peeled.
    pub open spec fn pass_from(self, i: int) -> (MagicSumsView, bool)
        decreases self.elements.len() - i,
    {
        if i < 0 || i >= self.elements.len() {
            (self, false)
        } else if self.elements[i].partners.len() == 1 {
            (self.peel(i).pass_from(i + 1).0, true)
        } else {
            self.pass_from(i + 1)
        }
    }

    /// Sweeps until a sweep peels nothing.
    pub open spec fn pruned(self) -> MagicSumsView
        decreases total_partners(self.elements),
    {
        let (next, removed) = self.pass_from(0);
        if removed {
            proof {
                lemma_pass_from(self, 0);
            }
            next.pruned()
        } else {
            self
        }
    }
}

proof fn lemma_total_partners_update(elements: Seq<ElementView>, i: int, e: ElementView)
    requires
        0 <= i < elements.len(),
    ensures
        total_partners(elements.update(i, e)) + elements[i].partners.len() == total_partners(elements)
            + e.partners.len(),
    decreases elements.len(),
{
    let updated = elements.update(i, e);
    if i == elements.len() - 1 {
        assert(updated.drop_last() =~= elements.drop_last());
    } else {
        lemma_total_partners_update(elements.drop_last(), i, e);
        assert(updated.drop_last() =~= elements.drop_last().update(i, e));
    }
}

proof fn lemma_peel(s: MagicSumsView, i: int)
    requires
        0 <= i < s.elements.len(),
        s.elements[i].partners.len() == 1,
    ensures
        total_partners(s.peel(i).elements) < total_partners(s.elements),
        s.peel(i).elements.len() == s.elements.len(),
        forall|k: int|
            0 <= k < s.elements.len() ==> (#[trigger] s.peel(i).elements[k]).number == s.elements[k].number
                && s.peel(i).elements[k].is_square == s.elements[k].is_square,
        s.wf() ==> s.peel(i).wf(),
        forall|a: int, x: usize|
            0 <= a < s.elements.len() && (#[trigger] s.peel(i).elements[a].partners.contains(x))
                ==> s.elements[a].partners.contains(x),
{
    let j = s.elements[i].partners[0];
    let cleared = s.elements.update(i, s.elements[i].with_partners(Seq::empty()));
    lemma_total_partners_update(s.elements, i, s.elements[i].with_partners(Seq::empty()));
    if 0 <= j < cleared.len() {
        let kept = cleared[j as int].partners.filter(other_than(i as usize));
        cleared[j as int].partners.lemma_filter_len(other_than(i as usize));
        assert forall|a: int, x: usize|
            0 <= a < s.elements.len() && (#[trigger] s.peel(i).elements[a].partners.contains(x))
                implies s.elements[a].partners.contains(x) by {
            if a == j {
                cleared[j as int].partners.lemma_filter_contains_rev(other_than(i as usize), x);
                if a == i {
                    assert(cleared[j as int].partners.len() == 0);
                }
            } else if a == i {
                assert(s.peel(i).elements[a].partners.len() == 0);
            } else {
                assert(s.peel(i).elements[a] == s.elements[a]);
            }
        }
        lemma_total_partners_update(cleared, j as int, cleared[j as int].with_partners(kept));
        if s.wf() {
            let t = s.peel(i);
            assert forall|a: int, k: int|
                0 <= a < t.elements.len() && 0 <= k < t.elements[a].partners.len() implies #[trigger]
                t.elements[a].partners[k] < t.elements.len() by {
                if a == j {
                    assert(kept.contains(kept[k]));
                    cleared[j as int].partners.lemma_filter_contains_rev(other_than(i as usize), kept[k]);
                    if a != i {
                        let m = choose|m: int|
                            0 <= m < cleared[j as int].partners.len() && cleared[j as int].partners[m]
                                == kept[k];
                        assert(cleared[j as int] == s.elements[a]);
                        assert(s.elements[a].partners[m] < s.elements.len());
                    }
                } else if a == i {
                } else {
                    assert(t.elements[a] == s.elements[a]);
                    assert(s.elements[a].partners[k] < s.elements.len());
                }
            }
        }
    } else {
        if s.wf() {
            assert(s.elements[i].partners[0] < s.elements.len());
        }
        assert forall|a: int, x: usize|
            0 <= a < s.elements.len() && (#[trigger] s.peel(i).elements[a].partners.contains(x))
                implies s.elements[a].partners.contains(x) by {
            if a == i {
                assert(s.peel(i).elements[a].partners.len() == 0);
            } else {
                assert(s.peel(i).elements[a] == s.elements[a]);
            }
        }
    }
}

/// One sweep peels something exactly when it lowers the total number of
/// partners; a sweep that peels nothing changes nothing and found no element
/// with exactly one partner; a sweep keeps the elements' places, numbers and
/// squareness, and keeps the table consistent.
pub proof fn lemma_pass_from(s: MagicSumsView, i: int)
    requires
        0 <= i,
    ensures
        s.pass_from(i).1 ==> total_partners(s.pass_from(i).0.elements) < total_partners(s.elements),
        !s.pass_from(i).1 ==> s.pass_from(i).0 == s,
        !s.pass_from(i).1 ==> forall|k: int|
            i <= k < s.elements.len() ==> #[trigger] s.elements[k].partners.len() != 1,
        s.pass_from(i).0.elements.len() == s.elements.len(),
        forall|k: int|
            0 <= k < s.elements.len() ==> (#[trigger] s.pass_from(i).0.elements[k]).number
                == s.elements[k].number && s.pass_from(i).0.elements[k].is_square
                == s.elements[k].is_square,
        s.wf() ==> s.pass_from(i).0.wf(),
        forall|a: int, x: usize|
            0 <= a < s.elements.len() && (#[trigger] s.pass_from(i).0.elements[a].partners.contains(x))
                ==> s.elements[a].partners.contains(x),
    decreases s.elements.len() - i,
{
    if i >= s.elements.len() {
    } else if s.elements[i].partners.len() == 1 {
        lemma_peel(s, i);
        lemma_pass_from(s.peel(i), i + 1);
        let t = s.peel(i).pass_from(i + 1);
        if !t.1 {
            assert(t.0 == s.peel(i));
        }
    } else {
        lemma_pass_from(s, i + 1);
    }
}

/// Pruning leaves no element with exactly one partner, keeps every element
/// in its place with its number and its squareness, only ever takes
/// partners away, and keeps the table consistent.
pub proof fn lemma_pruned(s: MagicSumsView)
    ensures
        s.pruned().elements.len() == s.elements.len(),
        forall|k: int|
            0 <= k < s.elements.len() ==> (#[trigger] s.pruned().elements[k]).number == s.elements[k].number
                && s.pruned().elements[k].is_square == s.elements[k].is_square,
        forall|k: int|
            0 <= k < s.elements.len() ==> #[trigger] s.pruned().elements[k].partners.len() != 1,
        s.wf() ==> s.pruned().wf(),
        forall|a: int, x: usize|
            0 <= a < s.elements.len() && (#[trigger] s.pruned().elements[a].partners.contains(x))
                ==> s.elements[a].partners.contains(x),
    decreases total_partners(s.elements),
{
    lemma_pass_from(s, 0);
    let (next, removed) = s.pass_from(0);
    if removed {
        lemma_pruned(next);
    }
}

proof fn lemma_even_pass_from(s: MagicSumsView, i: int)
    requires
        0 <= i,
        s.partners_even(),
    ensures
        s.pass_from(i) == (s, false),
    decreases s.elements.len() - i,
{
    if i < s.elements.len() {
        assert(s.elements[i].partners.len() % 2 == 0);
        lemma_even_pass_from(s, i + 1);
    }
}

/// Pruning changes nothing in a table whose partner lists all have even
/// length: no element ever has exactly one partner.
pub proof fn lemma_even_tables_are_pruned(s: MagicSumsView)
    requires
        s.partners_even(),
    ensures
        s.pruned() == s,
{
    lemma_even_pass_from(s, 0);
}

/// Appending an element keeps every partner list even.
pub proof fn lemma_insertion_keeps_even(s: MagicSumsView, number: u64, is_square: bool)
    requires
        s.partners_even(),
    ensures
        s.with_element(number, is_square).partners_even(),
{
    let t = s.with_element(number, is_square);
    assert forall|i: int| 0 <= i < t.elements.len() implies #[trigger] t.elements[i].partners.len() % 2 == 0 by {
        if i < s.elements.len() {
            assert(t.elements[i] == s.elements[i]);
        }
    }
}

/// A partnership appends two partners to each of its three elements, so it
/// keeps every partner list even.
pub proof fn lemma_partnership_keeps_even(s: MagicSumsView, i1: usize, i2: usize, i3: usize)
    requires
        s.partners_even(),
        i1 < s.elements.len(),
        i2 < s.elements.len(),
        i3 < s.elements.len(),
    ensures
        s.with_partnership(i1, i2, i3).partners_even(),
{
    let s1 = s.with_partners_appended(i1, i2, i3);
    assert forall|i: int| 0 <= i < s1.elements.len() implies #[trigger] s1.elements[i].partners.len() % 2 == 0 by {
        if i != i1 {
            assert(s1.elements[i] == s.elements[i]);
        }
    }
    let s2 = s1.with_partners_appended(i2, i1, i3);
    assert forall|i: int| 0 <= i < s2.elements.len() implies #[trigger] s2.elements[i].partners.len() % 2 == 0 by {
        if i != i2 {
            assert(s2.elements[i] == s1.elements[i]);
        }
    }
    let s3 = s2.with_partners_appended(i3, i1, i2);
    assert forall|i: int| 0 <= i < s3.elements.len() implies #[trigger] s3.elements[i].partners.len() % 2 == 0 by {
        if i != i3 {
            assert(s3.elements[i] == s2.elements[i]);
        }
    }
}

/// How many times `x` occurs in `s`.
pub open spec fn occurrences(s: Seq<usize>, x: usize) -> nat
    decreases s.len(),
{
    if s.len() == 0 {
        0
    } else {
        occurrences(s.drop_last(), x) + if s.last() == x {
            1nat
        } else {
            0nat
        }
    }
}

/// 1 where `c` holds, else 0.
pub open spec fn indicator(c: bool) -> nat {
    if c {
        1
    } else {
        0
    }
}

impl MagicSumsView {
    /// Partnership is symmetric: element `a` lists `b` as often as `b`
    /// lists `a`.
    pub open spec fn partners_symmetric(self) -> bool {
        forall|a: usize, b: usize|
            #![trigger occurrences(self.elements[a as int].partners, b)]
            a < self.elements.len() && b < self.elements.len() ==> occurrences(self.elements[a as int].partners, b)
                == occurrences(self.elements[b as int].partners, a)
    }
}

proof fn lemma_occurrences_push(s: Seq<usize>, y: usize, x: usize)
    ensures
        occurrences(s.push(y), x) == occurrences(s, x) + indicator(y == x),
{
    assert(s.push(y).drop_last() =~= s);
}

proof fn lemma_occurrences_absent(s: Seq<usize>, x: usize)
    requires
        forall|k: int| 0 <= k < s.len() ==> #[trigger] s[k] != x,
    ensures
        occurrences(s, x) == 0,
    decreases s.len(),
{
    if s.len() > 0 {
        let rest = s.drop_last();
        assert forall|k: int| 0 <= k < rest.len() implies #[trigger] rest[k] != x by {
            assert(rest[k] == s[k]);
        }
        lemma_occurrences_absent(rest, x);
        assert(s.last() == s[s.len() - 1]);
    }
}

proof fn lemma_occurrences_filter(s: Seq<usize>, i: usize, x: usize)
    ensures
        occurrences(s.filter(other_than(i)), x) == if x == i {
            0
        } else {
            occurrences(s, x)
        },
    decreases s.len(),
{
    if s.len() > 0 {
        let rest = s.drop_last();
        lemma_occurrences_filter(rest, i, x);
        assert(s =~= rest.push(s.last()));
        rest.lemma_filter_push(s.last(), other_than(i));
        if other_than(i)(s.last()) {
            lemma_occurrences_push(rest.filter(other_than(i)), s.last(), x);
        }
    }
}

proof fn lemma_occurrences_single(s: Seq<usize>, x: usize)
    requires
        s.len() == 1,
    ensures
        occurrences(s, x) == indicator(s[0] == x),
{
    assert(s.drop_last().len() == 0);
    assert(occurrences(s.drop_last(), x) == 0);
    assert(s.last() == s[0]);
}

/// How often element `a` lists `b` after element `index` gets `x` and `y`
/// appended.
proof fn lemma_appended_occurrences(s: MagicSumsView, index: usize, x: usize, y: usize, a: int, b: usize)
    requires
        index < s.elements.len(),
        0 <= a < s.elements.len(),
    ensures
        occurrences(s.with_partners_appended(index, x, y).elements[a].partners, b) == occurrences(
            s.elements[a].partners,
            b,
        ) + if a == index {
            indicator(x == b) + indicator(y == b)
        } else {
            0
        },
{
    if a == index {
        let p = s.elements[a].partners;
        lemma_occurrences_push(p, x, b);
        lemma_occurrences_push(p.push(x), y, b);
    }
}

/// Recording a partnership keeps partnership symmetric: each of the three
/// elements lists the other two once more.
pub proof fn lemma_partnership_keeps_symmetry(s: MagicSumsView, i1: usize, i2: usize, i3: usize)
    requires
        s.partners_symmetric(),
        i1 < s.elements.len(),
        i2 < s.elements.len(),
        i3 < s.elements.len(),
    ensures
        s.with_partnership(i1, i2, i3).partners_symmetric(),
{
    let s1 = s.with_partners_appended(i1, i2, i3);
    let s2 = s1.with_partners_appended(i2, i1, i3);
    let s3 = s2.with_partners_appended(i3, i1, i2);
    assert forall|a: usize, b: usize| a < s3.elements.len() && b < s3.elements.len() implies #[trigger] occurrences(
        s3.elements[a as int].partners,
        b,
    ) == occurrences(s3.elements[b as int].partners, a) by {
        lemma_appended_occurrences(s, i1, i2, i3, a as int, b);
        lemma_appended_occurrences(s1, i2, i1, i3, a as int, b);
        lemma_appended_occurrences(s2, i3, i1, i2, a as int, b);
        lemma_appended_occurrences(s, i1, i2, i3, b as int, a);
        lemma_appended_occurrences(s1, i2, i1, i3, b as int, a);
        lemma_appended_occurrences(s2, i3, i1, i2, b as int, a);
        assert(occurrences(s.elements[a as int].partners, b) == occurrences(s.elements[b as int].partners, a));
    }
}

/// Appending an element with no partners keeps partnership symmetric.
pub proof fn lemma_insertion_keeps_symmetry(s: MagicSumsView, number: u64, is_square: bool)
    requires
        s.wf(),
        s.partners_symmetric(),
    ensures
        s.with_element(number, is_square).partners_symmetric(),
{
    let t = s.with_element(number, is_square);
    let n = s.elements.len();
    assert forall|a: usize, b: usize| a < t.elements.len() && b < t.elements.len() implies #[trigger] occurrences(
        t.elements[a as int].partners,
        b,
    ) == occurrences(t.elements[b as int].partners, a) by {
        if a < n && b < n {
            assert(t.elements[a as int] == s.elements[a as int]);
            assert(t.elements[b as int] == s.elements[b as int]);
            assert(occurrences(s.elements[a as int].partners, b) == occurrences(s.elements[b as int].partners, a));
        } else {
            if a < n {
                assert(t.elements[a as int] == s.elements[a as int]);
                assert forall|k: int| 0 <= k < s.elements[a as int].partners.len() implies #[trigger] s.elements[a as int].partners[k] != b by {
                    assert(s.elements[a as int].partners[k] < n);
                }
                lemma_occurrences_absent(s.elements[a as int].partners, b);
            }
            if b < n {
                assert(t.elements[b as int] == s.elements[b as int]);
                assert forall|k: int| 0 <= k < s.elements[b as int].partners.len() implies #[trigger] s.elements[b as int].partners[k] != a by {
                    assert(s.elements[b as int].partners[k] < n);
                }
                lemma_occurrences_absent(s.elements[b as int].partners, a);
            }
        }
    }
}

/// How often element `a` lists `b` after peeling element `i`, whose only
/// partner is `j`: `i` lists nothing, `j` no longer lists `i`.
proof fn lemma_peel_occurrences(s: MagicSumsView, i: int, a: int, b: usize)
    requires
        s.wf(),
        0 <= i < s.elements.len(),
        s.elements[i].partners.len() == 1,
        0 <= a < s.elements.len(),
    ensures
        occurrences(s.peel(i).elements[a].partners, b) == if a == i {
            0
        } else if a == s.elements[i].partners[0] {
            if b == i as usize {
                0
            } else {
                occurrences(s.elements[a].partners, b)
            }
        } else {
            occurrences(s.elements[a].partners, b)
        },
{
    let j = s.elements[i].partners[0];
    assert(j < s.elements.len());
    let cleared = s.elements.update(i, s.elements[i].with_partners(Seq::empty()));
    if a == j {
        lemma_occurrences_filter(cleared[j as int].partners, i as usize, b);
        if a == i {
            assert(cleared[j as int].partners.filter(other_than(i as usize)).len() == 0) by {
                cleared[j as int].partners.lemma_filter_len(other_than(i as usize));
            }
        }
    } else if a == i {
        assert(s.peel(i).elements[a].partners.len() == 0);
    }
}

proof fn lemma_peel_keeps_symmetry(s: MagicSumsView, i: int)
    requires
        s.elements.len() <= usize::MAX,
        s.wf(),
        s.partners_symmetric(),
        0 <= i < s.elements.len(),
        s.elements[i].partners.len() == 1,
    ensures
        s.peel(i).partners_symmetric(),
{
    let t = s.peel(i);
    let j = s.elements[i].partners[0];
    lemma_peel(s, i);
    assert forall|a: usize, b: usize| a < t.elements.len() && b < t.elements.len() implies #[trigger] occurrences(
        t.elements[a as int].partners,
        b,
    ) == occurrences(t.elements[b as int].partners, a) by {
        lemma_peel_occurrences(s, i, a as int, b);
        lemma_peel_occurrences(s, i, b as int, a);
        lemma_occurrences_single(s.elements[i].partners, a);
        lemma_occurrences_single(s.elements[i].partners, b);
        assert(occurrences(s.elements[a as int].partners, b) == occurrences(s.elements[b as int].partners, a));
        let iu = i as usize;
        assert(s.elements[iu as int] == s.elements[i]);
        assert(occurrences(s.elements[iu as int].partners, a) == occurrences(s.elements[a as int].partners, iu));
        assert(occurrences(s.elements[iu as int].partners, b) == occurrences(s.elements[b as int].partners, iu));
    }
}

proof fn lemma_pass_keeps_symmetry(s: MagicSumsView, i: int)
    requires
        s.elements.len() <= usize::MAX,
        s.wf(),
        s.partners_symmetric(),
        0 <= i,
    ensures
        s.pass_from(i).0.partners_symmetric(),
    decreases s.elements.len() - i,
{
    if i < s.elements.len() {
        if s.elements[i].partners.len() == 1 {
            lemma_peel(s, i);
            lemma_peel_keeps_symmetry(s, i);
            lemma_pass_keeps_symmetry(s.peel(i), i + 1);
        } else {
            lemma_pass_keeps_symmetry(s, i + 1);
        }
    }
}

/// Pruning keeps partnership symmetric: an element peeled off lists
/// nothing and is listed by nobody.
pub proof fn lemma_pruning_keeps_symmetry(s: MagicSumsView)
    requires
        s.elements.len() <= usize::MAX,
        s.wf(),
        s.partners_symmetric(),
    ensures
        s.pruned().partners_symmetric(),
    decreases total_partners(s.elements),
{
    lemma_pass_from(s, 0);
    lemma_pass_keeps_symmetry(s, 0);
    let (next, removed) = s.pass_from(0);
    if removed {
        lemma_pruning_keeps_symmetry(next);
    }
}

/// In a symmetric table, an element without partners is listed by no
/// element.
pub proof fn lemma_unpartnered_unlisted(s: MagicSumsView, a: usize, b: usize)
    requires
        s.partners_symmetric(),
        a < s.elements.len(),
        b < s.elements.len(),
        s.elements[a as int].partners.len() == 0,
    ensures
        occurrences(s.elements[b as int].partners, a) == 0,
{
    assert(occurrences(s.elements[a as int].partners, b) == occurrences(s.elements[b as int].partners, a));
}

/// One number of the table, as stored.
struct Element {
    number: u64,
    is_square: bool,
    partners: Vec<usize>,
}

impl View for Element {
    type V = ElementView;

    closed spec fn view(&self) -> ElementView {
        ElementView { number: self.number, is_square: self.is_square, partners: self.partners@ }
    }
}

/// The storage of a table: its elements and its lookup.
struct Table {
    elements: Vec<Element>,
    lookup: NoHashMap<u64, usize>,
}

impl View for Table {
    type V = MagicSumsView;

    closed spec fn view(&self) -> MagicSumsView {
        MagicSumsView { elements: self.elements@.map_values(|e: Element| e@), lookup: self.lookup@ }
    }
}

/// The partners of `partners` other than `index`, in order.
fn without_partner(partners: &Vec<usize>, index: usize) -> (kept: Vec<usize>)
    ensures
        kept@ == partners@.filter(other_than(index)),
{
    let mut kept: Vec<usize> = Vec::new();
    let mut k: usize = 0;
    while k < partners.len()
        invariant
            0 <= k <= partners.len(),
            kept@ == partners@.take(k as int).filter(other_than(index)),
        decreases partners.len() - k,
    {
        proof {
            partners@.take(k as int).lemma_filter_push(partners@[k as int], other_than(index));
            assert(partners@.take(k as int).push(partners@[k as int]) =~= partners@.take(k + 1));
        }
        if partners[k] != index {
            kept.push(partners[k]);
        }
        k = k + 1;
    }
    assert(partners@.take(k as int) =~= partners@);
    kept
}

impl Table {
    /// An empty table.
    fn empty() -> (table: Self)
        ensures
            table@.elements == Seq::<ElementView>::empty(),
            table@.lookup == Map::<u64, usize>::empty(),
            table.wf(),
            table@.indexed(),
            table@.partners_even(),
            table@.partners_symmetric(),
    {
        let table = Table { elements: Vec::new(), lookup: NoHashMap::default() };
        assert(table@.elements =~= Seq::<ElementView>::empty());
        table
    }

    /// The table is consistent (see `MagicSumsView::wf`).
    spec fn wf(&self) -> bool {
        self@.wf()
    }

    /// Finds the element of `number`, or, where there is none, asks
    /// `is_square_fn` whether `number` is a square and appends a new element
    /// when `condition_fn` accepts that answer.
    ///
    /// Returns the element's index and squareness, or `None` where the
    /// condition refused the new element.
    fn get_or_insert_element<F, G>(&mut self, number: u64, is_square_fn: F, condition_fn: G) -> (found:
        Option<(usize, bool)>) where F: Fn() -> bool, G: Fn(bool) -> bool
        requires
            old(self).wf(),
            is_square_fn.requires(()),
            forall|b: bool| condition_fn.requires((b,)),
        ensures
            final(self).wf(),
            found matches Some((index, is_square)) ==> {
                &&& index < final(self)@.elements.len()
                &&& final(self)@.elements[index as int].number == number
                &&& final(self)@.elements[index as int].is_square == is_square
            },
            final(self)@.elements.len() <= old(self)@.elements.len() + 1,
            final(self)@.elements.len() >= old(self)@.elements.len(),
            old(self)@.partners_even() ==> final(self)@.partners_even(),
            old(self)@.partners_symmetric() ==> final(self)@.partners_symmetric(),
            old(self)@.indexed() ==> final(self)@.indexed(),
            forall|x: int|
                0 <= x < old(self)@.elements.len() ==> #[trigger] final(self)@.elements[x]
                    == old(self)@.elements[x],
            old(self)@.lookup.contains_key(spec_hash(number)) ==> {
                let index = old(self)@.lookup[spec_hash(number)];
                &&& found == Some((index, old(self)@.elements[index as int].is_square))
                &&& final(self)@ == old(self)@
            },
            !old(self)@.lookup.contains_key(spec_hash(number)) ==> match found {
                Some((index, is_square)) => {
                    &&& index == old(self)@.elements.len()
                    &&& is_square_fn.ensures((), is_square)
                    &&& condition_fn.ensures((is_square,), true)
                    &&& final(self)@ == old(self)@.with_element(number, is_square)
                },
                None => {
                    &&& exists|b: bool| is_square_fn.ensures((), b) && condition_fn.ensures((b,), false)
                    &&& final(self)@ == old(self)@
                },
            },
    {
        let key = hash(number);
        let existing: Option<usize> = match nohash_map_get(&self.lookup, key) {
            Some(index) => Some(*index),
            None => None,
        };
        match existing {
            Some(index) => {
                proof {
                    assert(self@.lookup.contains_key(key));
                    assert(self@.elements.len() == self.elements@.len());
                    crate::hashing::lemma_hash_injective(self@.elements[index as int].number, number);
                }
                let is_square = self.elements[index].is_square;
                Some((index, is_square))
            },
            None => {
                let is_square = is_square_fn();
                if condition_fn(is_square) {
                    let index = self.elements.len();
                    let ghost before = self@;
                    self.elements.push(Element { number, is_square, partners: Vec::new() });
                    nohash_map_insert(&mut self.lookup, key, index);
                    proof {
                        assert(self@.elements =~= before.with_element(number, is_square).elements);
                        assert(self@ == before.with_element(number, is_square));
                        if before.partners_even() {
                            lemma_insertion_keeps_even(before, number, is_square);
                        }
                        if before.partners_symmetric() {
                            lemma_insertion_keeps_symmetry(before, number, is_square);
                        }
                        if before.indexed() {
                            let t = self@;
                            assert forall|i: int| 0 <= i < t.elements.len() implies t.lookup.contains_key(
                                spec_hash(#[trigger] t.elements[i].number),
                            ) && t.lookup[spec_hash(t.elements[i].number)] == i by {
                                if i < before.elements.len() {
                                    assert(t.elements[i] == before.elements[i]);
                                    assert(before.lookup.contains_key(spec_hash(before.elements[i].number)));
                                }
                            }
                        }
                    }
                    Some((index, is_square))
                } else {
                    None
                }
            },
        }
    }

    fn append_partners(&mut self, index: usize, a: usize, b: usize)
        requires
            old(self).wf(),
            index < old(self)@.elements.len(),
            a < old(self)@.elements.len(),
            b < old(self)@.elements.len(),
        ensures
            final(self).wf(),
            final(self)@ == old(self)@.with_partners_appended(index, a, b),
    {
        let ghost before = self@;
        self.elements[index].partners.push(a);
        self.elements[index].partners.push(b);
        proof {
            assert(self@.elements =~= before.with_partners_appended(index, a, b).elements);
            let t = self@;
            assert forall|i: int, k: int|
                0 <= i < t.elements.len() && 0 <= k < t.elements[i].partners.len() implies #[trigger]
                t.elements[i].partners[k] < t.elements.len() by {
                if i != index {
                    assert(t.elements[i] == before.elements[i]);
                } else if k < before.elements[i].partners.len() {
                    assert(t.elements[i].partners[k] == before.elements[i].partners[k]);
                }
            }
        }
    }

    /// Records that the three elements complete a magic sum together: each
    /// gets the other two appended to its partners.
    fn add_partnership(&mut self, index1: usize, index2: usize, index3: usize)
        requires
            old(self).wf(),
            index1 < old(self)@.elements.len(),
            index2 < old(self)@.elements.len(),
            index3 < old(self)@.elements.len(),
        ensures
            final(self).wf(),
            final(self)@ == old(self)@.with_partnership(index1, index2, index3),
            final(self)@.elements.len() == old(self)@.elements.len(),
            old(self)@.partners_even() ==> final(self)@.partners_even(),
            old(self)@.partners_symmetric() ==> final(self)@.partners_symmetric(),
            old(self)@.indexed() ==> final(self)@.indexed(),
            forall|x: int|
                0 <= x < old(self)@.elements.len() ==> (#[trigger] final(self)@.elements[x]).number
                    == old(self)@.elements[x].number && final(self)@.elements[x].is_square
                    == old(self)@.elements[x].is_square,
    {
        self.append_partners(index1, index2, index3);
        self.append_partners(index2, index1, index3);
        self.append_partners(index3, index1, index2);
        proof {
            if old(self)@.partners_even() {
                lemma_partnership_keeps_even(old(self)@, index1, index2, index3);
            }
            if old(self)@.partners_symmetric() {
                lemma_partnership_keeps_symmetry(old(self)@, index1, index2, index3);
            }
            if old(self)@.indexed() {
                let t = self@;
                assert forall|i: int| 0 <= i < t.elements.len() implies t.lookup.contains_key(
                    spec_hash(#[trigger] t.elements[i].number),
                ) && t.lookup[spec_hash(t.elements[i].number)] == i by {
                    assert(old(self)@.lookup.contains_key(spec_hash(old(self)@.elements[i].number)));
                }
            }
        }
    }

    /// Peels, sweep after sweep, every element with exactly one partner:
    /// it leaves the lookup, loses its partner, and that partner forgets it.
    fn remove_if_less_than_two_partners(&mut self)
        requires
            old(self).wf(),
        ensures
            final(self).wf(),
            final(self)@ == old(self)@.pruned(),
            old(self)@.partners_symmetric() ==> final(self)@.partners_symmetric(),
    {
        let ghost start_len = self.elements.len();
        proof {
            assert(self@.elements.len() == start_len);
            if old(self)@.partners_symmetric() {
                lemma_pruning_keeps_symmetry(old(self)@);
            }
        }
        loop
            invariant
                self.wf(),
                self@.pruned() == old(self)@.pruned(),
            ensures
                self.wf(),
                self@ == old(self)@.pruned(),
            decreases total_partners(self@.elements),
        {
            let ghost start = self@;
            let mut removed = false;
            let len = self.elements.len();
            let mut i: usize = 0;
            while i < len
                invariant
                    len == self@.elements.len(),
                    len == start.elements.len(),
                    0 <= i <= len,
                    self.wf(),
                    start.pass_from(0).0 == self@.pass_from(i as int).0,
                    start.pass_from(0).1 == (removed || self@.pass_from(i as int).1),
                    removed ==> total_partners(self@.elements) < total_partners(start.elements),
                    !removed ==> self@ == start,
                decreases len - i,
            {
                if self.elements[i].partners.len() == 1 {
                    let ghost before = self@;
                    proof {
                        lemma_peel(before, i as int);
                        assert(before.elements[i as int].partners[0] < len);
                    }
                    let number = self.elements[i].number;
                    nohash_map_remove(&mut self.lookup, hash(number));
                    let j = self.elements[i].partners[0];
                    self.elements[i].partners = Vec::new();
                    let kept = without_partner(&self.elements[j].partners, i);
                    self.elements[j].partners = kept;
                    removed = true;
                    proof {
                        assert(self@.elements =~= before.peel(i as int).elements);
                        assert(self@ == before.peel(i as int));
                    }
                }
                i = i + 1;
            }
            proof {
                lemma_pass_from(start, 0);
            }
            if !removed {
                break;
            }
        }
    }

    /// Empties the table.
    fn clear(&mut self)
        ensures
            final(self)@.elements == Seq::<ElementView>::empty(),
            final(self)@.lookup == Map::<u64, usize>::empty(),
            final(self).wf(),
            final(self)@.indexed(),
            final(self)@.partners_even(),
            final(self)@.partners_symmetric(),
    {
        self.elements.clear();
        self.lookup.clear();
        assert(self@.elements =~= Seq::<ElementView>::empty());
    }

    /// The number of elements.
    fn len(&self) -> (count: usize)
        ensures
            count == self@.elements.len(),
    {
        self.elements.len()
    }

    /// The number of element `index`.
    fn number(&self, index: usize) -> (number: u64)
        requires
            index < self@.elements.len(),
        ensures
            number == self@.elements[index as int].number,
    {
        self.elements[index].number
    }

    /// Whether element `index` is a square.
    fn is_square_at(&self, index: usize) -> (is_square: bool)
        requires
            index < self@.elements.len(),
        ensures
            is_square == self@.elements[index as int].is_square,
    {
        self.elements[index].is_square
    }

    /// The partners of element `index`, in the order they were recorded.
    fn partners(&self, index: usize) -> (partners: &[usize])
        requires
            index < self@.elements.len(),
        ensures
            partners@ == self@.elements[index as int].partners,
    {
        self.elements[index].partners.as_slice()
    }

    /// The index that the lookup holds for `number`, if any.
    fn index_of(&self, number: u64) -> (index: Option<usize>)
        ensures
            match index {
                Some(i) => self@.lookup.contains_key(spec_hash(number)) && i == self@.lookup[spec_hash(
                    number,
                )],
                None => !self@.lookup.contains_key(spec_hash(number)),
            },
    {
        match nohash_map_get(&self.lookup, hash(number)) {
            Some(i) => Some(*i),
            None => None,
        }
    }
}

/// The numbers that complete a magic sum together with others, with the
/// partnerships found between them. A table is consistent at all times
/// (see `MagicSumsView::wf`).
pub struct MagicSums {
    table: Table,
}

impl View for MagicSums {
    type V = MagicSumsView;

    closed spec fn view(&self) -> MagicSumsView {
        self.table@
    }
}

impl Default for MagicSums {
    fn default() -> (sums: Self)
        ensures
            sums@.elements == Seq::<ElementView>::empty(),
            sums@.lookup == Map::<u64, usize>::empty(),
            sums.wf(),
            sums@.indexed(),
            sums@.partners_even(),
            sums@.partners_symmetric(),
    {
        MagicSums { table: Table::empty() }
    }
}

impl MagicSums {
    /// The table is consistent (see `MagicSumsView::wf`).
    pub open spec fn wf(&self) -> bool {
        self@.wf()
    }

    /// Every table is consistent, at all times.
    #[verifier::type_invariant]
    pub(crate) open spec fn consistent(self) -> bool {
        self@.wf()
    }

    /// Finds the element of `number`, or, where there is none, asks
    /// `is_square_fn` whether `number` is a square and appends a new element
    /// when `condition_fn` accepts that answer.
    ///
    /// Returns the element's index and squareness, or `None` where the
    /// condition refused the new element.
    pub fn get_or_insert_element<F, G>(&mut self, number: u64, is_square_fn: F, condition_fn: G) -> (found:
        Option<(usize, bool)>) where F: Fn() -> bool, G: Fn(bool) -> bool
        requires
            is_square_fn.requires(()),
            forall|b: bool| condition_fn.requires((b,)),
        ensures
            final(self).wf(),
            found matches Some((index, is_square)) ==> {
                &&& index < final(self)@.elements.len()
                &&& final(self)@.elements[index as int].number == number
                &&& final(self)@.elements[index as int].is_square == is_square
            },
            final(self)@.elements.len() <= old(self)@.elements.len() + 1,
            final(self)@.elements.len() >= old(self)@.elements.len(),
            old(self)@.partners_even() ==> final(self)@.partners_even(),
            old(self)@.partners_symmetric() ==> final(self)@.partners_symmetric(),
            old(self)@.indexed() ==> final(self)@.indexed(),
            forall|x: int|
                0 <= x < old(self)@.elements.len() ==> #[trigger] final(self)@.elements[x]
                    == old(self)@.elements[x],
            old(self)@.lookup.contains_key(spec_hash(number)) ==> {
                let index = old(self)@.lookup[spec_hash(number)];
                &&& found == Some((index, old(self)@.elements[index as int].is_square))
                &&& final(self)@ == old(self)@
            },
            !old(self)@.lookup.contains_key(spec_hash(number)) ==> match found {
                Some((index, is_square)) => {
                    &&& index == old(self)@.elements.len()
                    &&& is_square_fn.ensures((), is_square)
                    &&& condition_fn.ensures((is_square,), true)
                    &&& final(self)@ == old(self)@.with_element(number, is_square)
                },
                None => {
                    &&& exists|b: bool| is_square_fn.ensures((), b) && condition_fn.ensures((b,), false)
                    &&& final(self)@ == old(self)@
                },
            },
    {
        proof {
            use_type_invariant(&*self);
        }
        let mut table = Table::empty();
        std::mem::swap(&mut table, &mut self.table);
        let result = table.get_or_insert_element(number, is_square_fn, condition_fn);
        self.table = table;
        result
    }

    /// Records that the three elements complete a magic sum together: each
    /// gets the other two appended to its partners.
    pub fn add_partnership(&mut self, index1: usize, index2: usize, index3: usize)
        requires
            index1 < old(self)@.elements.len(),
            index2 < old(self)@.elements.len(),
            index3 < old(self)@.elements.len(),
        ensures
            final(self).wf(),
            final(self)@ == old(self)@.with_partnership(index1, index2, index3),
            final(self)@.elements.len() == old(self)@.elements.len(),
            old(self)@.partners_even() ==> final(self)@.partners_even(),
            old(self)@.partners_symmetric() ==> final(self)@.partners_symmetric(),
            old(self)@.indexed() ==> final(self)@.indexed(),
            forall|x: int|
                0 <= x < old(self)@.elements.len() ==> (#[trigger] final(self)@.elements[x]).number
                    == old(self)@.elements[x].number && final(self)@.elements[x].is_square
                    == old(self)@.elements[x].is_square,
    {
        proof {
            use_type_invariant(&*self);
        }
        let mut table = Table::empty();
        std::mem::swap(&mut table, &mut self.table);
        table.add_partnership(index1, index2, index3);
        self.table = table;
    }

    /// Peels, sweep after sweep, every element with exactly one partner:
    /// it leaves the lookup, loses its partner, and that partner forgets it.
    pub fn remove_if_less_than_two_partners(&mut self)
        ensures
            final(self).wf(),
            final(self)@ == old(self)@.pruned(),
            old(self)@.partners_symmetric() ==> final(self)@.partners_symmetric(),
    {
        proof {
            use_type_invariant(&*self);
        }
        let mut table = Table::empty();
        std::mem::swap(&mut table, &mut self.table);
        table.remove_if_less_than_two_partners();
        self.table = table;
    }

    /// Empties the table.
    pub fn clear(&mut self)
        ensures
            final(self)@.elements == Seq::<ElementView>::empty(),
            final(self)@.lookup == Map::<u64, usize>::empty(),
            final(self).wf(),
            final(self)@.indexed(),
            final(self)@.partners_even(),
            final(self)@.partners_symmetric(),
    {
        proof {
            use_type_invariant(&*self);
        }
        let mut table = Table::empty();
        std::mem::swap(&mut table, &mut self.table);
        table.clear();
        self.table = table;
    }

    /// The number of elements.
    pub fn len(&self) -> (count: usize)
        ensures
            count == self@.elements.len(),
    {
        self.table.len()
    }

    /// The number of element `index`.
    pub fn number(&self, index: usize) -> (number: u64)
        requires
            index < self@.elements.len(),
        ensures
            number == self@.elements[index as int].number,
    {
        self.table.number(index)
    }

    /// Whether element `index` is a square.
    pub fn is_square_at(&self, index: usize) -> (is_square: bool)
        requires
            index < self@.elements.len(),
        ensures
            is_square == self@.elements[index as int].is_square,
    {
        self.table.is_square_at(index)
    }

    /// The partners of element `index`, in the order they were recorded.
    pub fn partners(&self, index: usize) -> (partners: &[usize])
        requires
            index < self@.elements.len(),
        ensures
            partners@ == self@.elements[index as int].partners,
    {
        self.table.partners(index)
    }

    /// The index that the lookup holds for `number`, if any.
    pub fn index_of(&self, number: u64) -> (index: Option<usize>)
        ensures
            match index {
                Some(i) => self@.lookup.contains_key(spec_hash(number)) && i == self@.lookup[spec_hash(
                    number,
                )],
                None => !self@.lookup.contains_key(spec_hash(number)),
            },
    {
        self.table.index_of(number)
    }
}

} // verus!
