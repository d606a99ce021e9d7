use magic_squares::hashing::{hash, NoHashMap, NoHashSet};
use magic_squares::patterns::{check_pattern_2, check_pattern_5, check_patterns_3_4_and_6, Cell};
use magic_squares::shared_vec::SharedVec;

// The square of Andrew Bremner, with seven square cells:
//   373^2   289^2   565^2
//  360721   425^2    23^2
//   205^2   527^2  222121
const MAGIC: u64 = 541_875;
const GRID: [u64; 9] = [139_129, 83_521, 319_225, 360_721, 180_625, 529, 42_025, 277_729, 222_121];

fn cell(value: u64) -> Cell {
    Cell::new(value, MAGIC)
}

fn squares_of(values: &[u64]) -> NoHashSet<u64> {
    let mut set = NoHashSet::default();
    for &v in values {
        set.insert(v);
    }
    set
}

#[test]
fn cell_new_keeps_the_rest_of_the_magic_sum() {
    let c = Cell::new(180_625, MAGIC);
    assert_eq!(c.value, 180_625);
    assert_eq!(c.magic_sum_minus_value, 361_250);
}

#[test]
fn pattern_2_finds_the_known_square() {
    let squares = squares_of(&[83_521, 277_729, 529]);
    let args = (cell(GRID[4]), cell(GRID[0]), cell(GRID[8]), cell(GRID[2]), cell(GRID[6]));
    let found = check_pattern_2(&squares, &args.0, &args.1, &args.2, &args.3, &args.4);
    assert_eq!(found, Some(GRID));
}

#[test]
fn pattern_2_needs_two_derived_squares() {
    let squares = squares_of(&[83_521]);
    let found = check_pattern_2(&squares, &cell(GRID[4]), &cell(GRID[0]), &cell(GRID[8]), &cell(GRID[2]), &cell(GRID[6]));
    assert_eq!(found, None);
    let none = squares_of(&[]);
    let found = check_pattern_2(&none, &cell(GRID[4]), &cell(GRID[0]), &cell(GRID[8]), &cell(GRID[2]), &cell(GRID[6]));
    assert_eq!(found, None);
}

#[test]
fn pattern_2_gives_up_below_zero() {
    // the top right cell is larger than what the top left leaves of the magic sum
    let squares = squares_of(&[]);
    let found = check_pattern_2(&squares, &cell(180_625), &cell(500_000), &cell(0), &cell(100_000), &cell(0));
    assert_eq!(found, None);
}

#[test]
fn patterns_3_4_6_hide_the_known_solution() {
    let squares = squares_of(&[139_129, 83_521, 277_729]);
    let (center, tr, bl, ml, mr) = (cell(GRID[4]), cell(GRID[2]), cell(GRID[6]), cell(GRID[3]), cell(GRID[5]));
    assert_eq!(check_patterns_3_4_and_6(&squares, &center, &tr, &bl, &ml, &mr), None);
}

#[test]
fn patterns_3_4_6_report_other_centers() {
    // the same square doubled: its center over 180625 is 2, not a square
    let magic = 2 * MAGIC;
    let c = |v: u64| Cell::new(2 * v, magic);
    let doubled: Vec<u64> = GRID.iter().map(|v| 2 * v).collect();
    let squares = squares_of(&[doubled[0], doubled[1]]);
    let found = check_patterns_3_4_and_6(&squares, &c(GRID[4]), &c(GRID[2]), &c(GRID[6]), &c(GRID[3]), &c(GRID[5]));
    assert_eq!(found.map(|g| g.to_vec()), Some(doubled.clone()));
    let few = squares_of(&[doubled[0]]);
    let found = check_patterns_3_4_and_6(&few, &c(GRID[4]), &c(GRID[2]), &c(GRID[6]), &c(GRID[3]), &c(GRID[5]));
    assert_eq!(found, None);
}

#[test]
fn pattern_5_finds_the_known_square_from_a_listed_number() {
    let mut sums: [NoHashMap<u64, SharedVec>; 3] = [NoHashMap::default(), NoHashMap::default(), NoHashMap::default()];
    // 373^2 + 565^2 = 458354, what the top middle cell leaves of the magic sum
    sums[0].insert(hash(458_354), SharedVec::from_vec(vec![1, 373]));
    let (center, tm, bm, ml, mr) = (cell(GRID[4]), cell(GRID[1]), cell(GRID[7]), cell(GRID[3]), cell(GRID[5]));
    let found = check_pattern_5(&sums, &center, &tm, &bm, &ml, &mr);
    assert_eq!(found, vec![GRID]);
}

#[test]
fn pattern_5_with_no_list_finds_nothing() {
    let sums: [NoHashMap<u64, SharedVec>; 3] = [NoHashMap::default(), NoHashMap::default(), NoHashMap::default()];
    let found = check_pattern_5(&sums, &cell(GRID[4]), &cell(GRID[1]), &cell(GRID[7]), &cell(GRID[3]), &cell(GRID[5]));
    assert!(found.is_empty());
}

#[test]
fn pattern_2_wraps_around_below_zero() {
    let c = |v: u64| Cell::new(v, 30);
    let (center, tl, br, tr, bl) = (c(10), c(0), c(20), c(0), c(20));
    // top middle 30 - 0, middle left 30 - 20, bottom middle 10 - 20 wraps, middle right 20 - 10
    let wrapped = 10u64.wrapping_sub(20);
    let none = squares_of(&[0, 1]);
    assert_eq!(check_pattern_2(&none, &center, &tl, &br, &tr, &bl), None);
    let squares = squares_of(&[30, wrapped]);
    let found = check_pattern_2(&squares, &center, &tl, &br, &tr, &bl);
    assert_eq!(found, Some([0, 30, 0, 10, 10, 10, 20, wrapped, 20]));
}

#[test]
fn pattern_5_rejects_a_number_whose_diagonal_fails() {
    let mut sums: [NoHashMap<u64, SharedVec>; 3] = [NoHashMap::default(), NoHashMap::default(), NoHashMap::default()];
    sums[1].insert(hash(458_354), SharedVec::from_vec(vec![1, 2, 3]));
    let (center, tm, bm, ml, mr) = (cell(GRID[4]), cell(GRID[1]), cell(GRID[7]), cell(GRID[3]), cell(GRID[5]));
    assert!(check_pattern_5(&sums, &center, &tm, &bm, &ml, &mr).is_empty());
}
