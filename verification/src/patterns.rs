use crate::graph_v2::{is_square, spec_is_square, square_of};
use crate::hashing::{hash, nohash_map_get, nohash_set_contains, spec_hash, NoHashMap, NoHashSet};
use crate::shared_vec::SharedVec;
use vstd::prelude::*;

verus! {

/// Whether a center cell that is a known solution, scaled, is left out of
/// the report of patterns 3, 4 and 6.
pub const HIDE_KNOWN_SOLUTION: bool = true;

/// The center value of the known solution, up to a square factor.
pub const KNOWN_SOLUTION_CENTER: u64 = 180_625;

/// A cell of the square: its value and what the magic sum leaves of it.
pub struct Cell {
    pub value: u64,
    pub magic_sum_minus_value: u64,
}

impl Cell {
    /// The cell of `value` in a square of magic sum `magic_sum`.
    pub fn new(value: u64, magic_sum: u64) -> (cell: Self)
        requires
            value <= magic_sum,
        ensures
            cell.value == value,
            cell.magic_sum_minus_value == magic_sum - value,
    {
        Self { value, magic_sum_minus_value: magic_sum - value }
    }

    /// The cell belongs to a square of magic sum `magic_sum`.
    pub open spec fn of_magic_sum(self, magic_sum: int) -> bool {
        self.value + self.magic_sum_minus_value == magic_sum
    }
}

/// The nine cells, read row by row, make a magic square of magic sum
/// `magic_sum`: every row, column and diagonal adds up to it.
pub open spec fn is_magic_grid(grid: Seq<u64>, magic_sum: int) -> bool {
    &&& grid.len() == 9
    &&& grid[0] + grid[1] + grid[2] == magic_sum
    &&& grid[3] + grid[4] + grid[5] == magic_sum
    &&& grid[6] + grid[7] + grid[8] == magic_sum
    &&& grid[0] + grid[3] + grid[6] == magic_sum
    &&& grid[1] + grid[4] + grid[7] == magic_sum
    &&& grid[2] + grid[5] + grid[8] == magic_sum
    &&& grid[0] + grid[4] + grid[8] == magic_sum
    &&& grid[2] + grid[4] + grid[6] == magic_sum
}

/// 1 where `value` is among `squares`, else 0.
pub open spec fn square_count(squares: Set<u64>, value: int) -> int {
    if 0 <= value <= u64::MAX && squares.contains(value as u64) {
        1
    } else {
        0
    }
}

/// `x - y` in 64-bit arithmetic that wraps around below zero, as the
/// search's unchecked subtractions compute it in an optimised build.
pub open spec fn wrapped_difference(x: u64, y: u64) -> u64 {
    vstd::wrapping::u64_specs::wrapping_sub(x, y)
}

/// `x + y` in 64-bit arithmetic that wraps around above the largest value.
pub open spec fn wrapped_sum(x: u64, y: u64) -> u64 {
    vstd::wrapping::u64_specs::wrapping_add(x, y)
}

/// The four cells of pattern 2 that are derived from the others:
/// top middle, middle left, bottom middle, middle right.
pub open spec fn pattern_2_cells(center: Cell, top_left: Cell, bottom_right: Cell, top_right: Cell, bottom_left: Cell) -> (int, int, int, int) {
    let top_middle = top_left.magic_sum_minus_value - top_right.value;
    let middle_left = top_left.magic_sum_minus_value - bottom_left.value;
    let bottom_middle = bottom_left.magic_sum_minus_value - bottom_right.value;
    let middle_right = center.magic_sum_minus_value - middle_left;
    (top_middle, middle_left, bottom_middle, middle_right)
}

/// No subtraction of pattern 2 wraps around: the bottom middle cell is not
/// negative where the top middle and middle left cells are not, nor is the
/// middle right cell where, besides, one of those three is a square.
pub open spec fn pattern_2_fits(squares: Set<u64>, center: Cell, top_left: Cell, bottom_right: Cell, top_right: Cell, bottom_left: Cell) -> bool {
    let (tm, ml, bm, mr) = pattern_2_cells(center, top_left, bottom_right, top_right, bottom_left);
    tm >= 0 && ml >= 0 ==> {
        &&& bm >= 0
        &&& square_count(squares, tm) + square_count(squares, ml) + square_count(squares, bm) >= 1 ==> mr >= 0
    }
}

/// The square that pattern 2 reports, row by row: where the top middle and
/// middle left cells are not negative, one of the top middle, middle left
/// and bottom middle cells is a square, and so is one more of those or the
/// middle right cell. The bottom middle and middle right cells are computed
/// without a check, wrapping around below zero.
pub open spec fn pattern_2_result(squares: Set<u64>, center: Cell, top_left: Cell, bottom_right: Cell, top_right: Cell, bottom_left: Cell) -> Option<Seq<u64>> {
    let tm = top_left.magic_sum_minus_value - top_right.value;
    let ml = top_left.magic_sum_minus_value - bottom_left.value;
    if tm < 0 || ml < 0 {
        None
    } else {
        let bm = wrapped_difference(bottom_left.magic_sum_minus_value, bottom_right.value);
        let mr = wrapped_difference(center.magic_sum_minus_value, ml as u64);
        let first = square_count(squares, tm) + square_count(squares, ml) + square_count(squares, bm as int);
        if first >= 1 && first + square_count(squares, mr as int) >= 2 {
            Some(
                seq![
                    top_left.value,
                    tm as u64,
                    top_right.value,
                    ml as u64,
                    center.value,
                    mr,
                    bottom_left.value,
                    bm,
                    bottom_right.value,
                ],
            )
        } else {
            None
        }
    }
}

/// The cells of pattern 2 lie around the center of a magic square: all of
/// the magic sum three times the center, opposite corners adding up to
/// twice the center.
pub open spec fn pattern_2_frame(center: Cell, top_left: Cell, bottom_right: Cell, top_right: Cell, bottom_left: Cell) -> bool {
    let magic_sum = 3 * center.value;
    &&& center.of_magic_sum(magic_sum)
    &&& top_left.of_magic_sum(magic_sum)
    &&& bottom_right.of_magic_sum(magic_sum)
    &&& top_right.of_magic_sum(magic_sum)
    &&& bottom_left.of_magic_sum(magic_sum)
    &&& top_left.value + bottom_right.value == 2 * center.value
    &&& top_right.value + bottom_left.value == 2 * center.value
}

/// The nine cells of a found square as a sequence.
pub open spec fn grid_view(found: Option<[u64; 9]>) -> Option<Seq<u64>> {
    match found {
        Some(grid) => Some(grid@),
        None => None,
    }
}

/// Pattern 2 reports its grid exactly when the top middle and middle left
/// cells are not negative, one of the top middle, middle left and bottom
/// middle cells is one of `squares`, and two of the four derived cells (those
/// three and the middle right) are; the grid is the nine cells row by row.
pub proof fn lemma_pattern_2_reports(squares: Set<u64>, center: Cell, top_left: Cell, bottom_right: Cell, top_right: Cell, bottom_left: Cell)
    ensures
        ({
            let tm = top_left.magic_sum_minus_value - top_right.value;
            let ml = top_left.magic_sum_minus_value - bottom_left.value;
            let bm = wrapped_difference(bottom_left.magic_sum_minus_value, bottom_right.value);
            let mr = wrapped_difference(center.magic_sum_minus_value, ml as u64);
            let a = squares.contains(tm as u64);
            let b = squares.contains(ml as u64);
            let c = squares.contains(bm);
            let d = squares.contains(mr);
            pattern_2_result(squares, center, top_left, bottom_right, top_right, bottom_left) == if tm >= 0 && ml >= 0
                && (a || b || c) && ((a && b) || (a && c) || (b && c) || d) {
                Some(
                    seq![
                        top_left.value,
                        tm as u64,
                        top_right.value,
                        ml as u64,
                        center.value,
                        mr,
                        bottom_left.value,
                        bm,
                        bottom_right.value,
                    ],
                )
            } else {
                None
            }
        }),
{
}

/// Checks pattern 2: the four corners and the center are given; the four
/// other cells follow from the magic sum (see `pattern_2_result`).
/// Returns the nine cells row by row.
pub fn check_pattern_2(
    squares: &NoHashSet<u64>,
    center: &Cell,
    top_left: &Cell,
    bottom_right: &Cell,
    top_right: &Cell,
    bottom_left: &Cell,
) -> (found: Option<[u64; 9]>)
    ensures
        grid_view(found) == pattern_2_result(squares@, *center, *top_left, *bottom_right, *top_right, *bottom_left),
        pattern_2_frame(*center, *top_left, *bottom_right, *top_right, *bottom_left) && pattern_2_fits(
            squares@,
            *center,
            *top_left,
            *bottom_right,
            *top_right,
            *bottom_left,
        ) ==> (found matches Some(grid) ==> is_magic_grid(grid@, 3 * center.value)),
        ({
            let tm = top_left.magic_sum_minus_value - top_right.value;
            let ml = top_left.magic_sum_minus_value - bottom_left.value;
            let bm = wrapped_difference(bottom_left.magic_sum_minus_value, bottom_right.value);
            let mr = wrapped_difference(center.magic_sum_minus_value, ml as u64);
            let a = squares@.contains(tm as u64);
            let b = squares@.contains(ml as u64);
            let c = squares@.contains(bm);
            let d = squares@.contains(mr);
            &&& found is Some <==> tm >= 0 && ml >= 0 && (a || b || c) && ((a && b) || (a && c) || (b && c) || d)
            &&& found matches Some(grid) ==> grid@ == seq![
                top_left.value,
                tm as u64,
                top_right.value,
                ml as u64,
                center.value,
                mr,
                bottom_left.value,
                bm,
                bottom_right.value,
            ]
        }),
{
    proof {
        lemma_pattern_2_reports(squares@, *center, *top_left, *bottom_right, *top_right, *bottom_left);
    }
    let top_middle = match top_left.magic_sum_minus_value.checked_sub(top_right.value) {
        Some(v) => v,
        None => return None,
    };
    let middle_left = match top_left.magic_sum_minus_value.checked_sub(bottom_left.value) {
        Some(v) => v,
        None => return None,
    };
    let bottom_middle = bottom_left.magic_sum_minus_value.wrapping_sub(bottom_right.value);

    let mut num_squares: u32 = 5;
    if nohash_set_contains(squares, top_middle) {
        num_squares += 1;
    }
    if nohash_set_contains(squares, middle_left) {
        num_squares += 1;
    }
    if nohash_set_contains(squares, bottom_middle) {
        num_squares += 1;
    }
    if num_squares < 6 {
        return None;
    }
    let middle_right = center.magic_sum_minus_value.wrapping_sub(middle_left);
    if nohash_set_contains(squares, middle_right) {
        num_squares += 1;
    }
    if num_squares < 7 {
        return None;
    }
    Some(
        [
            top_left.value,
            top_middle,
            top_right.value,
            middle_left,
            center.value,
            middle_right,
            bottom_left.value,
            bottom_middle,
            bottom_right.value,
        ],
    )
}

/// The center cell is a square multiple of the known solution's center
/// (its quotient by `KNOWN_SOLUTION_CENTER`, rounded down, is a square).
pub open spec fn is_known_solution(center: Cell) -> bool {
    spec_is_square((center.value / KNOWN_SOLUTION_CENTER) as u64)
}

/// The four cells of patterns 3, 4 and 6 that are derived from the others:
/// top left, bottom right, top middle, bottom middle.
pub open spec fn pattern_3_4_6_cells(top_right: Cell, bottom_left: Cell, middle_left: Cell, middle_right: Cell) -> (int, int, int, int) {
    let top_left = bottom_left.magic_sum_minus_value - middle_left.value;
    let bottom_right = top_right.magic_sum_minus_value - middle_right.value;
    let top_middle = top_right.magic_sum_minus_value - top_left;
    let bottom_middle = bottom_left.magic_sum_minus_value - bottom_right;
    (top_left, bottom_right, top_middle, bottom_middle)
}

/// No subtraction of patterns 3, 4 and 6 wraps around: the bottom middle
/// cell is not negative where the top left, bottom right and top middle
/// cells are not and one of them is a square.
pub open spec fn pattern_3_4_6_fits(squares: Set<u64>, top_right: Cell, bottom_left: Cell, middle_left: Cell, middle_right: Cell) -> bool {
    let (tl, br, tm, bm) = pattern_3_4_6_cells(top_right, bottom_left, middle_left, middle_right);
    tl >= 0 && br >= 0 && tm >= 0 && square_count(squares, tl) + square_count(squares, br) + square_count(
        squares,
        tm,
    ) >= 1 ==> bm >= 0
}

/// The square that patterns 3, 4 and 6 report, row by row: where the top
/// left, bottom right and top middle cells are not negative, one of them
/// is a square, and so is one more of them or the bottom middle cell, and
/// (with `HIDE_KNOWN_SOLUTION`) the center is not a multiple of the known
/// solution's center. The bottom middle cell is computed without a check,
/// wrapping around below zero.
pub open spec fn pattern_3_4_6_result(squares: Set<u64>, center: Cell, top_right: Cell, bottom_left: Cell, middle_left: Cell, middle_right: Cell) -> Option<Seq<u64>> {
    let tl = bottom_left.magic_sum_minus_value - middle_left.value;
    let br = top_right.magic_sum_minus_value - middle_right.value;
    let tm = top_right.magic_sum_minus_value - tl;
    if tl < 0 || br < 0 || tm < 0 {
        None
    } else {
        let bm = wrapped_difference(bottom_left.magic_sum_minus_value, br as u64);
        let first = square_count(squares, tl) + square_count(squares, br) + square_count(squares, tm);
        if first >= 1 && first + square_count(squares, bm as int) >= 2 && !(HIDE_KNOWN_SOLUTION
            && is_known_solution(center)) {
            Some(
                seq![
                    tl as u64,
                    tm as u64,
                    top_right.value,
                    middle_left.value,
                    center.value,
                    middle_right.value,
                    bottom_left.value,
                    bm,
                    br as u64,
                ],
            )
        } else {
            None
        }
    }
}

/// The cells of patterns 3, 4 and 6 lie around the center of a magic
/// square: all of the magic sum three times the center, the anti-diagonal
/// corners and the middle row's ends adding up to twice the center.
pub open spec fn pattern_3_4_6_frame(center: Cell, top_right: Cell, bottom_left: Cell, middle_left: Cell, middle_right: Cell) -> bool {
    let magic_sum = 3 * center.value;
    &&& center.of_magic_sum(magic_sum)
    &&& top_right.of_magic_sum(magic_sum)
    &&& bottom_left.of_magic_sum(magic_sum)
    &&& middle_left.of_magic_sum(magic_sum)
    &&& middle_right.of_magic_sum(magic_sum)
    &&& top_right.value + bottom_left.value == 2 * center.value
    &&& middle_left.value + middle_right.value == 2 * center.value
}

/// Patterns 3, 4 and 6 report their grid exactly when the top left, bottom
/// right and top middle cells are not negative, one of them is one of
/// `squares`, two of the four derived cells (those three and the bottom
/// middle) are, and the center's quotient by `KNOWN_SOLUTION_CENTER`
/// (rounded down) is not a perfect square; the grid is the nine cells row
/// by row.
pub proof fn lemma_pattern_3_4_6_reports(squares: Set<u64>, center: Cell, top_right: Cell, bottom_left: Cell, middle_left: Cell, middle_right: Cell)
    ensures
        ({
            let tl = bottom_left.magic_sum_minus_value - middle_left.value;
            let br = top_right.magic_sum_minus_value - middle_right.value;
            let tm = top_right.magic_sum_minus_value - tl;
            let bm = wrapped_difference(bottom_left.magic_sum_minus_value, br as u64);
            let a = squares.contains(tl as u64);
            let b = squares.contains(br as u64);
            let c = squares.contains(tm as u64);
            let d = squares.contains(bm);
            let hidden = exists|root: nat| #[trigger] square_of(root) == center.value / 180_625;
            pattern_3_4_6_result(squares, center, top_right, bottom_left, middle_left, middle_right) == if tl >= 0 && br
                >= 0 && tm >= 0 && (a || b || c) && ((a && b) || (a && c) || (b && c) || d) && !hidden {
                Some(
                    seq![
                        tl as u64,
                        tm as u64,
                        top_right.value,
                        middle_left.value,
                        center.value,
                        middle_right.value,
                        bottom_left.value,
                        bm,
                        br as u64,
                    ],
                )
            } else {
                None
            }
        }),
{
}

/// Checks patterns 3, 4 and 6: the center, the anti-diagonal corners and
/// the middle row are given; the four other cells follow from the magic sum
/// (see `pattern_3_4_6_result`). Returns the nine cells row by row.
pub fn check_patterns_3_4_and_6(
    squares: &NoHashSet<u64>,
    center: &Cell,
    top_right: &Cell,
    bottom_left: &Cell,
    middle_left: &Cell,
    middle_right: &Cell,
) -> (found: Option<[u64; 9]>)
    ensures
        grid_view(found) == pattern_3_4_6_result(squares@, *center, *top_right, *bottom_left, *middle_left, *middle_right),
        pattern_3_4_6_frame(*center, *top_right, *bottom_left, *middle_left, *middle_right) && pattern_3_4_6_fits(
            squares@,
            *top_right,
            *bottom_left,
            *middle_left,
            *middle_right,
        ) ==> (found matches Some(grid) ==> is_magic_grid(grid@, 3 * center.value)),
        ({
            let tl = bottom_left.magic_sum_minus_value - middle_left.value;
            let br = top_right.magic_sum_minus_value - middle_right.value;
            let tm = top_right.magic_sum_minus_value - tl;
            let bm = wrapped_difference(bottom_left.magic_sum_minus_value, br as u64);
            let a = squares@.contains(tl as u64);
            let b = squares@.contains(br as u64);
            let c = squares@.contains(tm as u64);
            let d = squares@.contains(bm);
            let hidden = exists|root: nat| #[trigger] square_of(root) == center.value / 180_625;
            &&& found is Some <==> tl >= 0 && br >= 0 && tm >= 0 && (a || b || c) && ((a && b) || (a && c) || (b && c)
                || d) && !hidden
            &&& found matches Some(grid) ==> grid@ == seq![
                tl as u64,
                tm as u64,
                top_right.value,
                middle_left.value,
                center.value,
                middle_right.value,
                bottom_left.value,
                bm,
                br as u64,
            ]
        }),
{
    proof {
        lemma_pattern_3_4_6_reports(squares@, *center, *top_right, *bottom_left, *middle_left, *middle_right);
    }
    let top_left = match bottom_left.magic_sum_minus_value.checked_sub(middle_left.value) {
        Some(v) => v,
        None => return None,
    };
    let bottom_right = match top_right.magic_sum_minus_value.checked_sub(middle_right.value) {
        Some(v) => v,
        None => return None,
    };
    let top_middle = match top_right.magic_sum_minus_value.checked_sub(top_left) {
        Some(v) => v,
        None => return None,
    };

    let mut num_squares: u32 = 5;
    if nohash_set_contains(squares, top_left) {
        num_squares += 1;
    }
    if nohash_set_contains(squares, bottom_right) {
        num_squares += 1;
    }
    if nohash_set_contains(squares, top_middle) {
        num_squares += 1;
    }
    if num_squares < 6 {
        return None;
    }
    let bottom_middle = bottom_left.magic_sum_minus_value.wrapping_sub(bottom_right);
    if nohash_set_contains(squares, bottom_middle) {
        num_squares += 1;
    }
    if num_squares < 7 {
        return None;
    }
    if HIDE_KNOWN_SOLUTION {
        let k2 = center.value / KNOWN_SOLUTION_CENTER;
        if is_square(k2) {
            return None;
        }
    }
    Some(
        [
            top_left,
            top_middle,
            top_right.value,
            middle_left.value,
            center.value,
            middle_right.value,
            bottom_left.value,
            bottom_middle,
            bottom_right,
        ],
    )
}

/// The square of pattern 5 on the number `number`, whose square is the top
/// left cell: the other derived cells follow from the magic sum, and the
/// square stands where the bottom corners are not negative and the bottom
/// row and both diagonals add up. The top right cell and the three sums are
/// computed without a check, wrapping around.
pub open spec fn pattern_5_grid(
    center: Cell,
    top_middle: Cell,
    bottom_middle: Cell,
    middle_left: Cell,
    middle_right: Cell,
    number: u32,
) -> Option<Seq<u64>> {
    let top_left = (number * number) as u64;
    let top_right = wrapped_difference(top_middle.magic_sum_minus_value, top_left);
    let bottom_left = middle_left.magic_sum_minus_value - top_left;
    let bottom_right = middle_right.magic_sum_minus_value - top_right;
    if bottom_left >= 0 && bottom_right >= 0 && wrapped_sum(bottom_left as u64, bottom_right as u64)
        == bottom_middle.magic_sum_minus_value && wrapped_sum(top_left, bottom_right as u64)
        == center.magic_sum_minus_value && wrapped_sum(top_right, bottom_left as u64)
        == center.magic_sum_minus_value {
        Some(
            seq![
                top_left,
                top_middle.value,
                top_right,
                middle_left.value,
                center.value,
                middle_right.value,
                bottom_left as u64,
                bottom_middle.value,
                bottom_right as u64,
            ],
        )
    } else {
        None
    }
}

/// No arithmetic of pattern 5 on `number` wraps around: the top right cell
/// is not negative, and each sum that is compared fits in 64 bits.
pub open spec fn pattern_5_fits(
    center: Cell,
    top_middle: Cell,
    bottom_middle: Cell,
    middle_left: Cell,
    middle_right: Cell,
    number: u32,
) -> bool {
    let top_left = number * number;
    let top_right = top_middle.magic_sum_minus_value - top_left;
    let bottom_left = middle_left.magic_sum_minus_value - top_left;
    let bottom_right = middle_right.magic_sum_minus_value - top_right;
    &&& top_right >= 0
    &&& bottom_left >= 0 && bottom_right >= 0 ==> {
        &&& bottom_left + bottom_right <= u64::MAX
        &&& bottom_left + bottom_right == bottom_middle.magic_sum_minus_value ==> {
            &&& top_left + bottom_right <= u64::MAX
            &&& top_left + bottom_right == center.magic_sum_minus_value ==> top_right + bottom_left
                <= u64::MAX
        }
    }
}

/// The squares of pattern 5 on each of `numbers`, in order.
pub open spec fn pattern_5_grids(
    center: Cell,
    top_middle: Cell,
    bottom_middle: Cell,
    middle_left: Cell,
    middle_right: Cell,
    numbers: Seq<u32>,
) -> Seq<Seq<u64>>
    decreases numbers.len(),
{
    if numbers.len() == 0 {
        Seq::empty()
    } else {
        let earlier = pattern_5_grids(center, top_middle, bottom_middle, middle_left, middle_right, numbers.drop_last());
        match pattern_5_grid(center, top_middle, bottom_middle, middle_left, middle_right, numbers.last()) {
            Some(grid) => earlier.push(grid),
            None => earlier,
        }
    }
}

/// The numbers listed under `key`, or none.
pub open spec fn listed_numbers(sums: Map<u64, SharedVec>, key: u64) -> Seq<u32> {
    if sums.contains_key(key) {
        sums[key]@
    } else {
        Seq::empty()
    }
}

/// The numbers listed, in the three sum tables in turn, under the sum that
/// the top middle cell leaves of the magic sum.
pub open spec fn pattern_5_numbers(sums_by_class: [NoHashMap<u64, SharedVec>; 3], top_middle: Cell) -> Seq<u32> {
    let key = spec_hash(top_middle.magic_sum_minus_value);
    listed_numbers(sums_by_class[0]@, key) + listed_numbers(sums_by_class[1]@, key) + listed_numbers(
        sums_by_class[2]@,
        key,
    )
}

/// The inputs of pattern 5 belong to a square around the center: every cell
/// is of the magic sum three times the center.
pub open spec fn pattern_5_frame(
    center: Cell,
    top_middle: Cell,
    bottom_middle: Cell,
    middle_left: Cell,
    middle_right: Cell,
) -> bool {
    let magic_sum = 3 * center.value;
    &&& center.of_magic_sum(magic_sum)
    &&& top_middle.of_magic_sum(magic_sum)
    &&& bottom_middle.of_magic_sum(magic_sum)
    &&& middle_left.of_magic_sum(magic_sum)
    &&& middle_right.of_magic_sum(magic_sum)
}

proof fn lemma_pattern_5_grids_push(
    center: Cell,
    top_middle: Cell,
    bottom_middle: Cell,
    middle_left: Cell,
    middle_right: Cell,
    numbers: Seq<u32>,
    number: u32,
)
    ensures
        pattern_5_grids(center, top_middle, bottom_middle, middle_left, middle_right, numbers.push(number))
            == match pattern_5_grid(center, top_middle, bottom_middle, middle_left, middle_right, number) {
            Some(grid) => pattern_5_grids(center, top_middle, bottom_middle, middle_left, middle_right, numbers).push(grid),
            None => pattern_5_grids(center, top_middle, bottom_middle, middle_left, middle_right, numbers),
        },
{
    assert(numbers.push(number).drop_last() =~= numbers);
}

/// The number `n` completes pattern 5: with its square as the top left
/// cell, what the top middle cell leaves for the top right cell (wrapping
/// below zero), what the middle left and middle right cells leave for the
/// bottom left and bottom right cells are not negative, and the bottom row
/// and both diagonals make up what the bottom middle and center cells leave
/// of the magic sum (wrapping above the largest value).
pub open spec fn pattern_5_completes(center: Cell, top_middle: Cell, bottom_middle: Cell, middle_left: Cell, middle_right: Cell, n: u32) -> bool {
    let top_left = (n * n) as u64;
    let top_right = vstd::wrapping::u64_specs::wrapping_sub(top_middle.magic_sum_minus_value, top_left);
    let bottom_left = middle_left.magic_sum_minus_value - top_left;
    let bottom_right = middle_right.magic_sum_minus_value - top_right;
    &&& 0 <= bottom_left
    &&& 0 <= bottom_right
    &&& vstd::wrapping::u64_specs::wrapping_add(bottom_left as u64, bottom_right as u64) == bottom_middle.magic_sum_minus_value
    &&& vstd::wrapping::u64_specs::wrapping_add(top_left, bottom_right as u64) == center.magic_sum_minus_value
    &&& vstd::wrapping::u64_specs::wrapping_add(top_right, bottom_left as u64) == center.magic_sum_minus_value
}

/// The grid that the number `n` completes in pattern 5, row by row.
pub open spec fn pattern_5_completed(center: Cell, top_middle: Cell, bottom_middle: Cell, middle_left: Cell, middle_right: Cell, n: u32) -> Seq<u64> {
    let top_left = (n * n) as u64;
    let top_right = vstd::wrapping::u64_specs::wrapping_sub(top_middle.magic_sum_minus_value, top_left);
    seq![
        top_left,
        top_middle.value,
        top_right,
        middle_left.value,
        center.value,
        middle_right.value,
        (middle_left.magic_sum_minus_value - top_left) as u64,
        bottom_middle.value,
        (middle_right.magic_sum_minus_value - top_right) as u64,
    ]
}

/// `grid` is the pattern-5 grid of one of `numbers` that completes the
/// pattern.
pub open spec fn completed_by_one_of(
    center: Cell,
    top_middle: Cell,
    bottom_middle: Cell,
    middle_left: Cell,
    middle_right: Cell,
    numbers: Seq<u32>,
    grid: Seq<u64>,
) -> bool {
    exists|k: int|
        0 <= k < numbers.len() && pattern_5_completes(center, top_middle, bottom_middle, middle_left, middle_right, #[trigger] numbers[k])
            && grid == pattern_5_completed(center, top_middle, bottom_middle, middle_left, middle_right, numbers[k])
}

/// Pattern 5 finds, for the numbers checked, exactly the grids of the
/// numbers that complete it: every number that completes the pattern gives
/// its grid among those found, whichever of its top corners is the bigger,
/// and every grid found is the grid of such a number.
pub proof fn lemma_pattern_5_grids_exact(
    center: Cell,
    top_middle: Cell,
    bottom_middle: Cell,
    middle_left: Cell,
    middle_right: Cell,
    numbers: Seq<u32>,
)
    ensures
        forall|k: int|
            0 <= k < numbers.len() && pattern_5_completes(center, top_middle, bottom_middle, middle_left, middle_right, #[trigger] numbers[k])
                ==> pattern_5_grids(center, top_middle, bottom_middle, middle_left, middle_right, numbers).contains(
                pattern_5_completed(center, top_middle, bottom_middle, middle_left, middle_right, numbers[k]),
            ),
        forall|g: Seq<u64>|
            #[trigger] pattern_5_grids(center, top_middle, bottom_middle, middle_left, middle_right, numbers).contains(g)
                ==> completed_by_one_of(center, top_middle, bottom_middle, middle_left, middle_right, numbers, g),
    decreases numbers.len(),
{
    let grids = pattern_5_grids(center, top_middle, bottom_middle, middle_left, middle_right, numbers);
    if numbers.len() > 0 {
        let rest = numbers.drop_last();
        let n = numbers.last();
        lemma_pattern_5_grids_exact(center, top_middle, bottom_middle, middle_left, middle_right, rest);
        let earlier = pattern_5_grids(center, top_middle, bottom_middle, middle_left, middle_right, rest);
        let completes = pattern_5_completes(center, top_middle, bottom_middle, middle_left, middle_right, n);
        let grid = pattern_5_completed(center, top_middle, bottom_middle, middle_left, middle_right, n);
        assert(pattern_5_grid(center, top_middle, bottom_middle, middle_left, middle_right, n) == if completes {
            Some(grid)
        } else {
            None
        });
        assert(grids == if completes { earlier.push(grid) } else { earlier });
        assert forall|k: int|
            0 <= k < numbers.len() && pattern_5_completes(center, top_middle, bottom_middle, middle_left, middle_right, #[trigger] numbers[k])
                implies grids.contains(pattern_5_completed(center, top_middle, bottom_middle, middle_left, middle_right, numbers[k])) by {
            if k < rest.len() {
                assert(rest[k] == numbers[k]);
                let g = pattern_5_completed(center, top_middle, bottom_middle, middle_left, middle_right, numbers[k]);
                assert(earlier.contains(g));
                if completes {
                    let i = choose|i: int| 0 <= i < earlier.len() && earlier[i] == g;
                    assert(grids[i] == g);
                }
            } else {
                assert(numbers[k] == n);
                assert(grids[grids.len() - 1] == grid);
            }
        }
        assert forall|g: Seq<u64>| #[trigger] grids.contains(g) implies completed_by_one_of(
            center,
            top_middle,
            bottom_middle,
            middle_left,
            middle_right,
            numbers,
            g,
        ) by {
            let i = choose|i: int| 0 <= i < grids.len() && grids[i] == g;
            if i < earlier.len() {
                assert(earlier[i] == g);
                assert(earlier.contains(g));
                let k = choose|k: int|
                    0 <= k < rest.len() && pattern_5_completes(center, top_middle, bottom_middle, middle_left, middle_right, #[trigger] rest[k])
                        && g == pattern_5_completed(center, top_middle, bottom_middle, middle_left, middle_right, rest[k]);
                assert(numbers[k] == rest[k]);
            } else {
                assert(completes);
                assert(numbers[numbers.len() - 1] == n);
                assert(g == pattern_5_completed(center, top_middle, bottom_middle, middle_left, middle_right, numbers[numbers.len() - 1]));
            }
        }
    }
}

/// Checks pattern 5 for every number listed under the sum that the top
/// middle cell leaves of the magic sum: that number's square is the top
/// left cell (see `pattern_5_grid`). Returns the squares found, each as its
/// nine cells row by row, in the order of the tables and of their lists.
pub fn check_pattern_5(
    sums_by_class: &[NoHashMap<u64, SharedVec>; 3],
    center: &Cell,
    top_middle: &Cell,
    bottom_middle: &Cell,
    middle_left: &Cell,
    middle_right: &Cell,
) -> (found: Vec<[u64; 9]>)
    ensures
        found@.map_values(|grid: [u64; 9]| grid@) == pattern_5_grids(
            *center,
            *top_middle,
            *bottom_middle,
            *middle_left,
            *middle_right,
            pattern_5_numbers(*sums_by_class, *top_middle),
        ),
        pattern_5_frame(*center, *top_middle, *bottom_middle, *middle_left, *middle_right) && (forall|k: int|
            0 <= k < pattern_5_numbers(*sums_by_class, *top_middle).len() ==> pattern_5_fits(
                *center,
                *top_middle,
                *bottom_middle,
                *middle_left,
                *middle_right,
                #[trigger] pattern_5_numbers(*sums_by_class, *top_middle)[k],
            )) ==> forall|k: int| 0 <= k < found.len() ==> is_magic_grid(#[trigger] found@[k]@, 3 * center.value),
        ({
            let numbers = pattern_5_numbers(*sums_by_class, *top_middle);
            &&& forall|k: int|
                0 <= k < numbers.len() && pattern_5_completes(*center, *top_middle, *bottom_middle, *middle_left, *middle_right, #[trigger] numbers[k])
                    ==> exists|i: int| 0 <= i < found.len() && #[trigger] found@[i]@
                    == pattern_5_completed(*center, *top_middle, *bottom_middle, *middle_left, *middle_right, numbers[k])
            &&& forall|i: int|
                0 <= i < found.len() ==> completed_by_one_of(
                    *center,
                    *top_middle,
                    *bottom_middle,
                    *middle_left,
                    *middle_right,
                    numbers,
                    #[trigger] found@[i]@,
                )
        }),
{
    proof {
        lemma_pattern_5_grids_exact(*center, *top_middle, *bottom_middle, *middle_left, *middle_right, pattern_5_numbers(*sums_by_class, *top_middle));
    }
    let ghost all_numbers = pattern_5_numbers(*sums_by_class, *top_middle);
    let key = hash(top_middle.magic_sum_minus_value);
    let mut found: Vec<[u64; 9]> = Vec::new();
    let mut class: usize = 0;
    let ghost mut done: Seq<u32> = Seq::empty();
    proof {
        assert(found@.map_values(|grid: [u64; 9]| grid@) =~= Seq::<Seq<u64>>::empty());
    }
    while class < 3
        invariant
            0 <= class <= 3,
            key == spec_hash(top_middle.magic_sum_minus_value),
            all_numbers == pattern_5_numbers(*sums_by_class, *top_middle),
            done == (if class == 0 {
                Seq::empty()
            } else if class == 1 {
                listed_numbers(sums_by_class[0]@, key)
            } else if class == 2 {
                listed_numbers(sums_by_class[0]@, key) + listed_numbers(sums_by_class[1]@, key)
            } else {
                all_numbers
            }),
            found@.map_values(|grid: [u64; 9]| grid@) == pattern_5_grids(
                *center,
                *top_middle,
                *bottom_middle,
                *middle_left,
                *middle_right,
                done,
            ),
            pattern_5_frame(*center, *top_middle, *bottom_middle, *middle_left, *middle_right) && (forall|k: int|
                0 <= k < all_numbers.len() ==> pattern_5_fits(
                    *center,
                    *top_middle,
                    *bottom_middle,
                    *middle_left,
                    *middle_right,
                    #[trigger] all_numbers[k],
                )) ==> forall|k: int| 0 <= k < found.len() ==> is_magic_grid(#[trigger] found@[k]@, 3 * center.value),
        decreases 3 - class,
    {
        let ghost listed = listed_numbers(sums_by_class[class as int]@, key);
        proof {
            assert(all_numbers =~= listed_numbers(sums_by_class[0]@, key) + listed_numbers(sums_by_class[1]@, key)
                + listed_numbers(sums_by_class[2]@, key));
            assert forall|k: int| 0 <= k < listed.len() implies all_numbers[done.len() + k] == #[trigger] listed[k] by {
                if class == 0 {
                    assert(all_numbers[k] == listed[k]);
                } else if class == 1 {
                    assert(all_numbers[listed_numbers(sums_by_class[0]@, key).len() + k] == listed[k]);
                } else {
                    assert(all_numbers[done.len() + k] == listed[k]);
                }
            }
            if forall|k: int|
                0 <= k < all_numbers.len() ==> pattern_5_fits(
                    *center,
                    *top_middle,
                    *bottom_middle,
                    *middle_left,
                    *middle_right,
                    #[trigger] all_numbers[k],
                ) {
                assert forall|k: int| 0 <= k < listed.len() implies pattern_5_fits(
                    *center,
                    *top_middle,
                    *bottom_middle,
                    *middle_left,
                    *middle_right,
                    #[trigger] listed[k],
                ) by {
                    assert(all_numbers[done.len() + k] == listed[k]);
                }
            }
        }
        match nohash_map_get(&sums_by_class[class], key) {
            Some(list) => {
                let numbers = list.as_slice();
                let ghost earlier = done;
                let mut n: usize = 0;
                proof {
                    assert(earlier + numbers@.take(0) =~= earlier);
                }
                while n < numbers.len()
                    invariant
                        0 <= n <= numbers@.len(),
                        numbers@ == listed,
                        found@.map_values(|grid: [u64; 9]| grid@) == pattern_5_grids(
                            *center,
                            *top_middle,
                            *bottom_middle,
                            *middle_left,
                            *middle_right,
                            earlier + numbers@.take(n as int),
                        ),
                        (forall|k: int|
                            0 <= k < all_numbers.len() ==> pattern_5_fits(
                                *center,
                                *top_middle,
                                *bottom_middle,
                                *middle_left,
                                *middle_right,
                                #[trigger] all_numbers[k],
                            )) ==> forall|k: int|
                            0 <= k < listed.len() ==> pattern_5_fits(
                                *center,
                                *top_middle,
                                *bottom_middle,
                                *middle_left,
                                *middle_right,
                                #[trigger] listed[k],
                            ),
                        pattern_5_frame(*center, *top_middle, *bottom_middle, *middle_left, *middle_right) && (
                        forall|k: int|
                            0 <= k < all_numbers.len() ==> pattern_5_fits(
                                *center,
                                *top_middle,
                                *bottom_middle,
                                *middle_left,
                                *middle_right,
                                #[trigger] all_numbers[k],
                            )) ==> forall|k: int|
                            0 <= k < found.len() ==> is_magic_grid(#[trigger] found@[k]@, 3 * center.value),
                    decreases numbers.len() - n,
                {
                    let number = numbers[n];
                    proof {
                        assert(earlier + numbers@.take(n + 1) =~= (earlier + numbers@.take(n as int)).push(number));
                        lemma_pattern_5_grids_push(
                            *center,
                            *top_middle,
                            *bottom_middle,
                            *middle_left,
                            *middle_right,
                            earlier + numbers@.take(n as int),
                            number,
                        );
                        assert((number as u64) * (number as u64) <= u64::MAX) by (nonlinear_arith)
                            requires
                                number <= u32::MAX,
                        ;
                    }
                    let top_left = number as u64 * number as u64;
                    let top_right = top_middle.magic_sum_minus_value.wrapping_sub(top_left);
                    let ghost before = found@.map_values(|grid: [u64; 9]| grid@);
                    if top_left <= middle_left.magic_sum_minus_value && top_right
                        <= middle_right.magic_sum_minus_value {
                        let bottom_left = middle_left.magic_sum_minus_value - top_left;
                        let bottom_right = middle_right.magic_sum_minus_value - top_right;
                        if bottom_left.wrapping_add(bottom_right) == bottom_middle.magic_sum_minus_value {
                            if top_left.wrapping_add(bottom_right) == center.magic_sum_minus_value {
                                if top_right.wrapping_add(bottom_left) == center.magic_sum_minus_value {
                                    let grid = [
                                        top_left,
                                        top_middle.value,
                                        top_right,
                                        middle_left.value,
                                        center.value,
                                        middle_right.value,
                                        bottom_left,
                                        bottom_middle.value,
                                        bottom_right,
                                    ];
                                    found.push(grid);
                                    proof {
                                        assert(found@.map_values(|grid: [u64; 9]| grid@) =~= before.push(grid@));
                                    }
                                }
                            }
                        }
                    }
                    n = n + 1;
                }
                proof {
                    assert(numbers@.take(numbers@.len() as int) =~= numbers@);
                    done = earlier + numbers@;
                }
            },
            None => {
                proof {
                    assert(listed =~= Seq::<u32>::empty());
                    assert(done + listed =~= done);
                    done = done + listed;
                }
            },
        }
        proof {
            if class == 2 {
                assert(done =~= all_numbers);
            }
        }
        class = class + 1;
    }
    proof {
        lemma_pattern_5_grids_exact(*center, *top_middle, *bottom_middle, *middle_left, *middle_right, all_numbers);
        let views = found@.map_values(|grid: [u64; 9]| grid@);
        assert(views == pattern_5_grids(*center, *top_middle, *bottom_middle, *middle_left, *middle_right, all_numbers));
        assert(all_numbers == pattern_5_numbers(*sums_by_class, *top_middle));
        assert forall|k: int|
            0 <= k < all_numbers.len() && pattern_5_completes(*center, *top_middle, *bottom_middle, *middle_left, *middle_right, #[trigger] all_numbers[k])
                implies exists|i: int| 0 <= i < found.len() && #[trigger] found@[i]@
                    == pattern_5_completed(*center, *top_middle, *bottom_middle, *middle_left, *middle_right, all_numbers[k]) by {
            let g = pattern_5_completed(*center, *top_middle, *bottom_middle, *middle_left, *middle_right, all_numbers[k]);
            assert(views.contains(g));
            let i = choose|i: int| 0 <= i < views.len() && views[i] == g;
            assert(found@[i]@ == views[i]);
        }
        let numbers = pattern_5_numbers(*sums_by_class, *top_middle);
        assert forall|i: int| 0 <= i < found.len() implies completed_by_one_of(
            *center,
            *top_middle,
            *bottom_middle,
            *middle_left,
            *middle_right,
            numbers,
            #[trigger] found@[i]@,
        ) by {
            assert(views[i] == found@[i]@);
            assert(views.contains(found@[i]@));
        }
    }
    found
}

} // verus!
