use magic_squares::magic_sums::MagicSums;

#[test]
fn get_or_insert_adds_new_numbers_in_order() {
    let mut sums = MagicSums::default();
    assert_eq!(sums.get_or_insert_element(9, || true, |_| true), Some((0, true)));
    assert_eq!(sums.get_or_insert_element(10, || false, |_| true), Some((1, false)));
    assert_eq!(sums.len(), 2);
    assert_eq!(sums.number(0), 9);
    assert_eq!(sums.number(1), 10);
    assert!(sums.is_square_at(0));
    assert!(!sums.is_square_at(1));
    assert_eq!(sums.index_of(10), Some(1));
    assert_eq!(sums.index_of(11), None);
}

#[test]
fn get_or_insert_finds_existing_numbers_without_asking() {
    let mut sums = MagicSums::default();
    sums.get_or_insert_element(16, || true, |_| true);
    let found = sums.get_or_insert_element(16, || panic!("not asked"), |_| panic!("not asked"));
    assert_eq!(found, Some((0, true)));
    assert_eq!(sums.len(), 1);
}

#[test]
fn get_or_insert_refused_by_condition_changes_nothing() {
    let mut sums = MagicSums::default();
    assert_eq!(sums.get_or_insert_element(7, || false, |is_square| is_square), None);
    assert_eq!(sums.len(), 0);
    assert_eq!(sums.index_of(7), None);
}

#[test]
fn add_partnership_appends_the_other_two() {
    let mut sums = MagicSums::default();
    for n in [1u64, 2, 3] {
        sums.get_or_insert_element(n, || false, |_| true);
    }
    sums.add_partnership(0, 1, 2);
    assert_eq!(sums.partners(0), &[1, 2]);
    assert_eq!(sums.partners(1), &[0, 2]);
    assert_eq!(sums.partners(2), &[0, 1]);
}

#[test]
fn pruning_leaves_tables_built_from_partnerships_unchanged() {
    let mut sums = MagicSums::default();
    for n in [10u64, 20, 30, 40, 50] {
        sums.get_or_insert_element(n, || false, |_| true);
    }
    sums.add_partnership(2, 3, 4);
    sums.add_partnership(0, 1, 1);
    sums.add_partnership(4, 4, 0);
    let before: Vec<Vec<usize>> = (0..sums.len()).map(|i| sums.partners(i).to_vec()).collect();
    sums.remove_if_less_than_two_partners();
    for i in 0..sums.len() {
        assert_eq!(sums.partners(i), before[i].as_slice());
        assert_eq!(sums.partners(i).len() % 2, 0);
    }
    for n in [10u64, 20, 30, 40, 50] {
        assert!(sums.index_of(n).is_some());
    }
}

#[test]
fn clear_empties_the_table() {
    let mut sums = MagicSums::default();
    sums.get_or_insert_element(4, || true, |_| true);
    sums.clear();
    assert_eq!(sums.len(), 0);
    assert_eq!(sums.index_of(4), None);
}

#[test]
fn partnerships_stay_symmetric() {
    let mut sums = MagicSums::default();
    for n in [1u64, 2, 3] {
        sums.get_or_insert_element(n, || false, |_| true);
    }
    sums.add_partnership(0, 1, 1);
    sums.add_partnership(2, 0, 1);
    sums.remove_if_less_than_two_partners();
    for a in 0..3 {
        for b in 0..3 {
            let there = sums.partners(a).iter().filter(|&&q| q == b).count();
            let back = sums.partners(b).iter().filter(|&&q| q == a).count();
            assert_eq!(there, back);
        }
    }
    assert_eq!(sums.partners(1), &[0, 1, 0, 1, 2, 0]);
}
