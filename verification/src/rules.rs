//! The rules of the puzzle, and how a grid and its clues stand in the
//! exact-cover matrix.
//!
//! The matrix has one row for every placement of a digit in a cell and one
//! column for every rule: 81 rules that a cell holds a digit, and, for each
//! of the 27 rows, columns and boxes of the grid, 9 rules that it holds a
//! given digit.  A placement touches the four rules that it satisfies.

use vstd::prelude::*;
use crate::board::Constraint;
use crate::covering::{lemma_covered, lemma_covered_wf, lemma_same_matrix};
use crate::entry::{lemma_with_entry_has, lemma_with_entry_wf};
use crate::exact::{lemma_active, lemma_same_ones};
use crate::links::{Links, lemma_empty_wf, lemma_wf_is_loose};

verus! {

/// The row and the column are those of a cell of the grid.
pub open spec fn is_cell(row: int, column: int) -> bool {
    0 <= row < 9 && 0 <= column < 9
}

/// The number is one of the digits 1 to 9.
pub open spec fn is_digit(digit: int) -> bool {
    1 <= digit <= 9
}

/// What a grid holds at a cell: a digit, or 0 where it is unknown.
pub open spec fn digit_at(grid: Seq<usize>, row: int, column: int) -> int {
    grid[column + row * 9] as int
}

/// The box that a cell lies in, numbered row by row.
pub open spec fn block_of(row: int, column: int) -> int {
    column / 3 + (row / 3) * 3
}

/// The row, column or box that a cell lies in.
pub open spec fn unit_of(family: Constraint, row: int, column: int) -> int {
    match family {
        Constraint::Cell => column + row * 9,
        Constraint::Row => row,
        Constraint::Column => column,
        Constraint::Box => block_of(row, column),
    }
}

/// The digit stands in exactly one cell of the unit.
pub open spec fn once_in_unit(grid: Seq<usize>, family: Constraint, unit: int, digit: int) -> bool {
    &&& exists|r: int, c: int|
        is_cell(r, c) && unit_of(family, r, c) == unit && #[trigger] digit_at(grid, r, c) == digit
    &&& forall|r1: int, c1: int, r2: int, c2: int|
        is_cell(r1, c1) && is_cell(r2, c2) && unit_of(family, r1, c1) == unit && unit_of(
            family,
            r2,
            c2,
        ) == unit && #[trigger] digit_at(grid, r1, c1) == digit && #[trigger] digit_at(
            grid,
            r2,
            c2,
        ) == digit ==> r1 == r2 && c1 == c2
}

/// Every digit stands exactly once in every unit of the family.
pub open spec fn family_solved(grid: Seq<usize>, family: Constraint) -> bool {
    forall|unit: int, digit: int|
        0 <= unit < 9 && is_digit(digit) ==> #[trigger] once_in_unit(grid, family, unit, digit)
}

/// The grid is full, and every row, every column and every box holds each
/// of the digits 1 to 9 exactly once.
pub open spec fn solved(grid: Seq<usize>) -> bool {
    &&& grid.len() == 81
    &&& forall|r: int, c: int| is_cell(r, c) ==> is_digit(#[trigger] digit_at(grid, r, c))
    &&& family_solved(grid, Constraint::Row)
    &&& family_solved(grid, Constraint::Column)
    &&& family_solved(grid, Constraint::Box)
}

/// `grid` has every clue of `clues` in its place.
pub open spec fn extends(grid: Seq<usize>, clues: Seq<usize>) -> bool {
    forall|r: int, c: int|
        is_cell(r, c) && digit_at(clues, r, c) != 0 ==> #[trigger] digit_at(grid, r, c)
            == digit_at(clues, r, c)
}

/// Two different cells hold the same digit and lie in one row, one column or
/// one box.
pub open spec fn clash(grid: Seq<usize>, r1: int, c1: int, r2: int, c2: int) -> bool {
    &&& is_cell(r1, c1)
    &&& is_cell(r2, c2)
    &&& !(r1 == r2 && c1 == c2)
    &&& digit_at(grid, r1, c1) != 0
    &&& digit_at(grid, r1, c1) == digit_at(grid, r2, c2)
    &&& (r1 == r2 || c1 == c2 || block_of(r1, c1) == block_of(r2, c2))
}

/// No two clues break a rule between them.
pub open spec fn consistent(grid: Seq<usize>) -> bool {
    forall|r1: int, c1: int, r2: int, c2: int| !#[trigger] clash(grid, r1, c1, r2, c2)
}

/// The matrix column of the rule of the given family that the placement of
/// `digit` at (`row`, `column`) satisfies.
pub open spec fn rule_of(family: Constraint, row: int, column: int, digit: int) -> int {
    match family {
        Constraint::Cell => column + row * 9,
        Constraint::Row => 81 + row * 9 + (digit - 1),
        Constraint::Column => 162 + column * 9 + (digit - 1),
        Constraint::Box => 243 + block_of(row, column) * 9 + (digit - 1),
    }
}

/// The placement of `digit` at (`row`, `column`) satisfies the rule of
/// matrix column `q`.
pub open spec fn touches(row: int, column: int, digit: int, q: int) -> bool {
    ||| q == rule_of(Constraint::Cell, row, column, digit)
    ||| q == rule_of(Constraint::Row, row, column, digit)
    ||| q == rule_of(Constraint::Column, row, column, digit)
    ||| q == rule_of(Constraint::Box, row, column, digit)
}

/// The matrix row of the placement of `digit` at (`row`, `column`).
pub open spec fn placement(row: int, column: int, digit: int) -> int {
    row * 81 + column * 9 + (digit - 1)
}

/// The row of the cell of the placement that a matrix row stands for.
pub open spec fn row_part(matrix_row: int) -> int {
    matrix_row / 81
}

/// The column of the cell of the placement that a matrix row stands for.
pub open spec fn column_part(matrix_row: int) -> int {
    matrix_row / 9 % 9
}

/// The digit of the placement that a matrix row stands for.
pub open spec fn digit_part(matrix_row: int) -> int {
    matrix_row % 9 + 1
}

/// The exact-cover matrix of the empty grid has a one at this row and
/// column.
pub open spec fn sudoku_has(matrix_row: int, q: int) -> bool {
    touches(row_part(matrix_row), column_part(matrix_row), digit_part(matrix_row), q)
}

/// One of the clues in the first `t` cells satisfies the rule of matrix
/// column `q`.
pub open spec fn taken_before(clues: Seq<usize>, q: int, t: int) -> bool {
    exists|r: int, c: int|
        is_cell(r, c) && c + r * 9 < t && digit_at(clues, r, c) != 0 && #[trigger] touches(
            r,
            c,
            digit_at(clues, r, c),
            q,
        )
}

/// One of the clues satisfies the rule of matrix column `q`.
pub open spec fn taken(clues: Seq<usize>, q: int) -> bool {
    taken_before(clues, q, 81)
}

/// Every matrix row stands for one placement, and every placement for one
/// matrix row.
pub proof fn lemma_placement(matrix_row: int)
    requires
        0 <= matrix_row < 729,
    ensures
        is_cell(row_part(matrix_row), column_part(matrix_row)),
        is_digit(digit_part(matrix_row)),
        placement(row_part(matrix_row), column_part(matrix_row), digit_part(matrix_row))
            == matrix_row,
{
}

/// The matrix row of a placement stands for that placement.
pub proof fn lemma_placement_parts(row: int, column: int, digit: int)
    requires
        is_cell(row, column),
        is_digit(digit),
    ensures
        0 <= placement(row, column, digit) < 729,
        row_part(placement(row, column, digit)) == row,
        column_part(placement(row, column, digit)) == column,
        digit_part(placement(row, column, digit)) == digit,
{
}

/// The four families of rules lie side by side in the matrix, and a
/// placement touches one rule of each.
pub proof fn lemma_rule_range(family: Constraint, row: int, column: int, digit: int)
    requires
        is_cell(row, column),
        is_digit(digit),
    ensures
        0 <= block_of(row, column) < 9,
        0 <= unit_of(family, row, column),
        family != Constraint::Cell ==> unit_of(family, row, column) < 9,
        match family {
            Constraint::Cell => 0 <= rule_of(family, row, column, digit) < 81,
            Constraint::Row => 81 <= rule_of(family, row, column, digit) < 162,
            Constraint::Column => 162 <= rule_of(family, row, column, digit) < 243,
            Constraint::Box => 243 <= rule_of(family, row, column, digit) < 324,
        },
        family != Constraint::Cell ==> rule_of(family, row, column, digit) == 81 * family_rank(
            family,
        ) + unit_of(family, row, column) * 9 + (digit - 1),
        touches(row, column, digit, rule_of(family, row, column, digit)),
{
}

/// The place of a family among the four.
pub open spec fn family_rank(family: Constraint) -> int {
    match family {
        Constraint::Cell => 0,
        Constraint::Row => 1,
        Constraint::Column => 2,
        Constraint::Box => 3,
    }
}

/// The family of the rule of matrix column `q`.
pub open spec fn family_of(q: int) -> Constraint {
    if q < 81 {
        Constraint::Cell
    } else if q < 162 {
        Constraint::Row
    } else if q < 243 {
        Constraint::Column
    } else {
        Constraint::Box
    }
}

/// A placement touches a rule exactly if the rule is the one of its family
/// for the unit that the cell lies in and for the digit.
pub proof fn lemma_touches(row: int, column: int, digit: int, q: int)
    requires
        is_cell(row, column),
        is_digit(digit),
    ensures
        touches(row, column, digit, q) <==> q == rule_of(family_of(q), row, column, digit),
        touches(row, column, digit, q) ==> 0 <= q < 324,
        touches(row, column, digit, q) && q >= 81 ==> q == 81 * family_rank(family_of(q)) + unit_of(
            family_of(q),
            row,
            column,
        ) * 9 + (digit - 1),
        touches(row, column, digit, q) && q < 81 ==> q == column + row * 9,
{
    lemma_rule_range(Constraint::Cell, row, column, digit);
    lemma_rule_range(Constraint::Row, row, column, digit);
    lemma_rule_range(Constraint::Column, row, column, digit);
    lemma_rule_range(Constraint::Box, row, column, digit);
}

/// Two placements that touch one rule are in one cell, or put one digit
/// into one unit.
pub proof fn lemma_touch_both(r1: int, c1: int, d1: int, r2: int, c2: int, d2: int, q: int)
    requires
        is_cell(r1, c1),
        is_digit(d1),
        is_cell(r2, c2),
        is_digit(d2),
        touches(r1, c1, d1, q),
        touches(r2, c2, d2, q),
    ensures
        q < 81 ==> r1 == r2 && c1 == c2,
        q >= 81 ==> d1 == d2 && unit_of(family_of(q), r1, c1) == unit_of(family_of(q), r2, c2),
{
    lemma_touches(r1, c1, d1, q);
    lemma_touches(r2, c2, d2, q);
    let f = family_of(q);
    lemma_rule_range(f, r1, c1, d1);
    lemma_rule_range(f, r2, c2, d2);
}

/// Every cell of the grid holds a digit or 0.
pub open spec fn is_grid(grid: Seq<usize>) -> bool {
    &&& grid.len() == 81
    &&& forall|i: int| 0 <= i < 81 ==> #[trigger] grid[i] <= 9
}

/// The matrix is the exact-cover matrix of the puzzle with the rules that
/// the clues satisfy covered.
pub open spec fn encodes(m: Links, clues: Seq<usize>) -> bool {
    &&& m.row_count == 729
    &&& m.column_count == 324
    &&& forall|mr: int, q: int| 0 <= mr < 729 ==> (#[trigger] m.has(mr, q) <==> sudoku_has(mr, q))
    &&& forall|q: int| #[trigger] m.live.contains(q) <==> 0 <= q < 324 && !taken(clues, q)
}

/// `grid` is `clues` with the placements of the matrix rows `s` written
/// into it.
pub open spec fn filled_from(clues: Seq<usize>, s: Set<int>, grid: Seq<usize>) -> bool {
    &&& is_grid(grid)
    &&& extends(grid, clues)
    &&& forall|mr: int| #[trigger]
        s.contains(mr) ==> digit_at(grid, row_part(mr), column_part(mr)) == digit_part(mr)
}

/// The matrix rows of the placements by which `grid` goes beyond `clues`.
pub open spec fn moves(clues: Seq<usize>, grid: Seq<usize>) -> Set<int> {
    Set::new(
        |mr: int|
            0 <= mr < 729 && digit_at(clues, row_part(mr), column_part(mr)) == 0 && digit_at(
                grid,
                row_part(mr),
                column_part(mr),
            ) == digit_part(mr),
    )
}

/// The unit and the digit of a rule that is not a cell's rule, and the cell
/// of a cell's rule.
pub proof fn lemma_rule_parts(q: int) -> (parts: (int, int))
    requires
        0 <= q < 324,
    ensures
        q < 81 ==> is_cell(parts.0, parts.1) && q == parts.1 + parts.0 * 9,
        q >= 81 ==> 0 <= parts.0 < 9 && is_digit(parts.1) && q == 81 * family_rank(family_of(q))
            + parts.0 * 9 + (parts.1 - 1) && family_of(q) != Constraint::Cell,
{
    if q < 81 {
        (q / 9, q % 9)
    } else {
        let k = q - 81 * family_rank(family_of(q));
        (k / 9, k % 9 + 1)
    }
}

/// A cell of a grid holds a digit or 0.
pub proof fn lemma_digit_at(grid: Seq<usize>, row: int, column: int)
    requires
        is_grid(grid),
        is_cell(row, column),
    ensures
        0 <= digit_at(grid, row, column) <= 9,
{
    assert(grid[column + row * 9] <= 9);
}

/// A clue satisfies the rules that its placement touches.
pub proof fn lemma_clue_takes(clues: Seq<usize>, row: int, column: int, q: int)
    requires
        is_cell(row, column),
        digit_at(clues, row, column) != 0,
        touches(row, column, digit_at(clues, row, column), q),
    ensures
        taken(clues, q),
{
}

/// A row of an exact cover stands for a placement in a cell without a
/// clue, and touches no rule that a clue satisfies.
pub proof fn lemma_move_is_free(m: Links, clues: Seq<usize>, s: Set<int>, mr: int)
    requires
        encodes(m, clues),
        is_grid(clues),
        m.is_cover(s),
        s.contains(mr),
    ensures
        0 <= mr < 729,
        is_cell(row_part(mr), column_part(mr)),
        is_digit(digit_part(mr)),
        digit_at(clues, row_part(mr), column_part(mr)) == 0,
        forall|q: int|
            touches(row_part(mr), column_part(mr), digit_part(mr), q) ==> #[trigger] m.live.contains(
                q,
            ),
{
    lemma_placement(mr);
    lemma_active(m, mr);
    let r = row_part(mr);
    let c = column_part(mr);
    let d = digit_part(mr);
    assert forall|q: int| touches(r, c, d, q) implies #[trigger] m.live.contains(q) by {
        assert(sudoku_has(mr, q));
        assert(m.has(mr, q));
    }
    if digit_at(clues, r, c) != 0 {
        lemma_digit_at(clues, r, c);
        let q = rule_of(Constraint::Cell, r, c, d);
        lemma_rule_range(Constraint::Cell, r, c, d);
        lemma_rule_range(Constraint::Cell, r, c, digit_at(clues, r, c));
        assert(m.live.contains(q));
        lemma_clue_takes(clues, r, c, q);
    }
}

/// Two rows of an exact cover that touch one rule are one row.
pub proof fn lemma_moves_apart(m: Links, clues: Seq<usize>, s: Set<int>, a: int, b: int, q: int)
    requires
        encodes(m, clues),
        is_grid(clues),
        m.is_cover(s),
        s.contains(a),
        s.contains(b),
        touches(row_part(a), column_part(a), digit_part(a), q),
        touches(row_part(b), column_part(b), digit_part(b), q),
    ensures
        a == b,
{
    lemma_move_is_free(m, clues, s, a);
    lemma_move_is_free(m, clues, s, b);
    assert(m.live.contains(q));
    assert(m.covers_once(s, q));
    assert(sudoku_has(a, q) && sudoku_has(b, q));
    assert(m.has(a, q) && m.has(b, q));
}

/// Where the digit of a cell of the completed grid comes from: a clue, or
/// a row of the exact cover.
pub proof fn lemma_origin(
    m: Links,
    clues: Seq<usize>,
    s: Set<int>,
    grid: Seq<usize>,
    row: int,
    column: int,
) -> (mr: int)
    requires
        encodes(m, clues),
        is_grid(clues),
        m.is_cover(s),
        filled_from(clues, s, grid),
        is_cell(row, column),
    ensures
        is_digit(digit_at(grid, row, column)),
        digit_at(clues, row, column) != 0 ==> mr == -1 && digit_at(grid, row, column) == digit_at(
            clues,
            row,
            column,
        ),
        digit_at(clues, row, column) == 0 ==> s.contains(mr) && 0 <= mr < 729 && row_part(mr) == row
            && column_part(mr) == column && digit_part(mr) == digit_at(grid, row, column),
{
    lemma_digit_at(clues, row, column);
    if digit_at(clues, row, column) != 0 {
        -1
    } else {
        let q = column + row * 9;
        if taken(clues, q) {
            let (r2, c2) = choose|r2: int, c2: int|
                is_cell(r2, c2) && c2 + r2 * 9 < 81 && digit_at(clues, r2, c2) != 0
                    && #[trigger] touches(r2, c2, digit_at(clues, r2, c2), q);
            lemma_digit_at(clues, r2, c2);
            lemma_touches(r2, c2, digit_at(clues, r2, c2), q);
            assert(false);
        }
        assert(m.live.contains(q));
        assert(m.covers_once(s, q));
        let mr = choose|mr: int| s.contains(mr) && #[trigger] m.has(mr, q);
        lemma_move_is_free(m, clues, s, mr);
        assert(sudoku_has(mr, q));
        lemma_touches(row_part(mr), column_part(mr), digit_part(mr), q);
        mr
    }
}

/// In the completed grid the digit stands in some cell of the unit.
proof fn lemma_unit_has_digit(
    m: Links,
    clues: Seq<usize>,
    s: Set<int>,
    grid: Seq<usize>,
    family: Constraint,
    unit: int,
    digit: int,
) -> (cell: (int, int))
    requires
        encodes(m, clues),
        is_grid(clues),
        m.is_cover(s),
        filled_from(clues, s, grid),
        family != Constraint::Cell,
        0 <= unit < 9,
        is_digit(digit),
    ensures
        is_cell(cell.0, cell.1),
        unit_of(family, cell.0, cell.1) == unit,
        digit_at(grid, cell.0, cell.1) == digit,
{
    let q = 81 * family_rank(family) + unit * 9 + (digit - 1);
    assert(family_of(q) == family);
    if taken(clues, q) {
        let (r2, c2) = choose|r2: int, c2: int|
            is_cell(r2, c2) && c2 + r2 * 9 < 81 && digit_at(clues, r2, c2) != 0 && #[trigger] touches(
                r2,
                c2,
                digit_at(clues, r2, c2),
                q,
            );
        lemma_digit_at(clues, r2, c2);
        lemma_touches(r2, c2, digit_at(clues, r2, c2), q);
        lemma_rule_range(family, r2, c2, digit_at(clues, r2, c2));
        assert(digit_at(grid, r2, c2) == digit_at(clues, r2, c2));
        (r2, c2)
    } else {
        assert(m.live.contains(q));
        assert(m.covers_once(s, q));
        let mr = choose|mr: int| s.contains(mr) && #[trigger] m.has(mr, q);
        lemma_move_is_free(m, clues, s, mr);
        assert(sudoku_has(mr, q));
        let r2 = row_part(mr);
        let c2 = column_part(mr);
        lemma_touches(r2, c2, digit_part(mr), q);
        lemma_rule_range(family, r2, c2, digit_part(mr));
        (r2, c2)
    }
}

/// In the completed grid no digit stands in two cells of a unit.
proof fn lemma_unit_has_digit_once(
    m: Links,
    clues: Seq<usize>,
    s: Set<int>,
    grid: Seq<usize>,
    family: Constraint,
    r1: int,
    c1: int,
    r2: int,
    c2: int,
)
    requires
        encodes(m, clues),
        is_grid(clues),
        consistent(clues),
        m.is_cover(s),
        filled_from(clues, s, grid),
        family != Constraint::Cell,
        is_cell(r1, c1),
        is_cell(r2, c2),
        unit_of(family, r1, c1) == unit_of(family, r2, c2),
        digit_at(grid, r1, c1) == digit_at(grid, r2, c2),
    ensures
        r1 == r2 && c1 == c2,
{
    let a = lemma_origin(m, clues, s, grid, r1, c1);
    let b = lemma_origin(m, clues, s, grid, r2, c2);
    let d = digit_at(grid, r1, c1);
    let q = rule_of(family, r1, c1, d);
    lemma_rule_range(family, r1, c1, d);
    lemma_rule_range(family, r2, c2, d);
    assert(q == rule_of(family, r2, c2, d));
    if a == -1 && b == -1 {
        if !(r1 == r2 && c1 == c2) {
            assert(clash(clues, r1, c1, r2, c2));
        }
    } else if a == -1 {
        lemma_clue_takes(clues, r1, c1, q);
        lemma_move_is_free(m, clues, s, b);
        assert(m.live.contains(q));
    } else if b == -1 {
        lemma_clue_takes(clues, r2, c2, q);
        lemma_move_is_free(m, clues, s, a);
        assert(m.live.contains(q));
    } else {
        lemma_moves_apart(m, clues, s, a, b, q);
    }
}

/// The clues with the placements of an exact cover written into them are
/// a solved grid.
pub proof fn lemma_cover_solves(m: Links, clues: Seq<usize>, s: Set<int>, grid: Seq<usize>)
    requires
        encodes(m, clues),
        is_grid(clues),
        consistent(clues),
        m.is_cover(s),
        filled_from(clues, s, grid),
    ensures
        solved(grid),
{
    assert forall|r: int, c: int| is_cell(r, c) implies is_digit(#[trigger] digit_at(grid, r, c)) by {
        lemma_origin(m, clues, s, grid, r, c);
    }
    assert forall|family: Constraint| family != Constraint::Cell implies #[trigger] family_solved(
        grid,
        family,
    ) by {
        assert forall|unit: int, digit: int| 0 <= unit < 9 && is_digit(digit) implies #[trigger] once_in_unit(
            grid,
            family,
            unit,
            digit,
        ) by {
            let cell = lemma_unit_has_digit(m, clues, s, grid, family, unit, digit);
            assert(is_cell(cell.0, cell.1) && unit_of(family, cell.0, cell.1) == unit && digit_at(
                grid,
                cell.0,
                cell.1,
            ) == digit);
            assert forall|r1: int, c1: int, r2: int, c2: int|
                is_cell(r1, c1) && is_cell(r2, c2) && unit_of(family, r1, c1) == unit && unit_of(
                    family,
                    r2,
                    c2,
                ) == unit && #[trigger] digit_at(grid, r1, c1) == digit && #[trigger] digit_at(
                    grid,
                    r2,
                    c2,
                ) == digit implies r1 == r2 && c1 == c2 by {
                lemma_unit_has_digit_once(m, clues, s, grid, family, r1, c1, r2, c2);
            }
        }
    }
    assert(family_solved(grid, Constraint::Row));
    assert(family_solved(grid, Constraint::Column));
    assert(family_solved(grid, Constraint::Box));
}

/// The clue that satisfies a rule which is taken.
pub proof fn lemma_taken_by(clues: Seq<usize>, q: int) -> (cell: (int, int))
    requires
        is_grid(clues),
        taken(clues, q),
    ensures
        is_cell(cell.0, cell.1),
        is_digit(digit_at(clues, cell.0, cell.1)),
        touches(cell.0, cell.1, digit_at(clues, cell.0, cell.1), q),
{
    let (r2, c2) = choose|r2: int, c2: int|
        is_cell(r2, c2) && c2 + r2 * 9 < 81 && digit_at(clues, r2, c2) != 0 && #[trigger] touches(
            r2,
            c2,
            digit_at(clues, r2, c2),
            q,
        );
    lemma_digit_at(clues, r2, c2);
    (r2, c2)
}

/// In a solved grid, two cells of one unit with one digit are one cell.
pub proof fn lemma_solved_once(
    grid: Seq<usize>,
    family: Constraint,
    r1: int,
    c1: int,
    r2: int,
    c2: int,
)
    requires
        solved(grid),
        family != Constraint::Cell,
        is_cell(r1, c1),
        is_cell(r2, c2),
        unit_of(family, r1, c1) == unit_of(family, r2, c2),
        digit_at(grid, r1, c1) == digit_at(grid, r2, c2),
    ensures
        r1 == r2 && c1 == c2,
{
    let u = unit_of(family, r1, c1);
    let d = digit_at(grid, r1, c1);
    lemma_rule_range(family, r1, c1, 1);
    assert(is_digit(d));
    assert(family_solved(grid, family));
    assert(once_in_unit(grid, family, u, d));
}

/// Clues that break a rule between them are part of no solved grid.
pub proof fn lemma_clash_unsolvable(clues: Seq<usize>, grid: Seq<usize>)
    requires
        is_grid(clues),
        !consistent(clues),
        extends(grid, clues),
    ensures
        !solved(grid),
{
    let (r1, c1, r2, c2) = choose|r1: int, c1: int, r2: int, c2: int| #[trigger]
        clash(clues, r1, c1, r2, c2);
    assert(digit_at(grid, r1, c1) == digit_at(clues, r1, c1));
    assert(digit_at(grid, r2, c2) == digit_at(clues, r2, c2));
    if solved(grid) {
        if r1 == r2 {
            lemma_solved_once(grid, Constraint::Row, r1, c1, r2, c2);
        } else if c1 == c2 {
            lemma_solved_once(grid, Constraint::Column, r1, c1, r2, c2);
        } else {
            lemma_solved_once(grid, Constraint::Box, r1, c1, r2, c2);
        }
    }
}

/// A placement by which a solved grid goes beyond the clues touches no
/// rule that a clue satisfies.
proof fn lemma_move_avoids_clues(clues: Seq<usize>, grid: Seq<usize>, mr: int, q: int)
    requires
        is_grid(clues),
        solved(grid),
        extends(grid, clues),
        moves(clues, grid).contains(mr),
        sudoku_has(mr, q),
    ensures
        0 <= q < 324,
        !taken(clues, q),
{
    lemma_placement(mr);
    let r = row_part(mr);
    let c = column_part(mr);
    let d = digit_part(mr);
    lemma_touches(r, c, d, q);
    if taken(clues, q) {
        let (r2, c2) = lemma_taken_by(clues, q);
        let d2 = digit_at(clues, r2, c2);
        lemma_touch_both(r, c, d, r2, c2, d2, q);
        if q >= 81 {
            lemma_rule_parts(q);
            assert(digit_at(grid, r2, c2) == d2);
            lemma_solved_once(grid, family_of(q), r, c, r2, c2);
        }
    }
}

/// For every rule that no clue satisfies, a solved grid goes beyond the
/// clues by a placement that touches it.
proof fn lemma_move_for_rule(clues: Seq<usize>, grid: Seq<usize>, q: int) -> (mr: int)
    requires
        is_grid(clues),
        solved(grid),
        extends(grid, clues),
        0 <= q < 324,
        !taken(clues, q),
    ensures
        moves(clues, grid).contains(mr),
        sudoku_has(mr, q),
{
    let parts = lemma_rule_parts(q);
    if q < 81 {
        let r = parts.0;
        let c = parts.1;
        let d = digit_at(grid, r, c);
        assert(is_digit(d));
        lemma_digit_at(clues, r, c);
        lemma_rule_range(Constraint::Cell, r, c, d);
        if digit_at(clues, r, c) != 0 {
            lemma_rule_range(Constraint::Cell, r, c, digit_at(clues, r, c));
            lemma_clue_takes(clues, r, c, q);
        }
        lemma_placement_parts(r, c, d);
        placement(r, c, d)
    } else {
        let family = family_of(q);
        let u = parts.0;
        let d = parts.1;
        assert(family_solved(grid, family));
        assert(once_in_unit(grid, family, u, d));
        let (r, c) = choose|r: int, c: int|
            is_cell(r, c) && unit_of(family, r, c) == u && #[trigger] digit_at(grid, r, c) == d;
        lemma_rule_range(family, r, c, d);
        lemma_digit_at(clues, r, c);
        if digit_at(clues, r, c) != 0 {
            assert(digit_at(grid, r, c) == digit_at(clues, r, c));
            lemma_clue_takes(clues, r, c, q);
        }
        lemma_placement_parts(r, c, d);
        placement(r, c, d)
    }
}

/// Two placements by which a solved grid goes beyond the clues, and which
/// touch one rule, are one placement.
proof fn lemma_moves_meet(clues: Seq<usize>, grid: Seq<usize>, a: int, b: int, q: int)
    requires
        is_grid(clues),
        solved(grid),
        moves(clues, grid).contains(a),
        moves(clues, grid).contains(b),
        sudoku_has(a, q),
        sudoku_has(b, q),
    ensures
        a == b,
{
    lemma_placement(a);
    lemma_placement(b);
    lemma_touch_both(
        row_part(a),
        column_part(a),
        digit_part(a),
        row_part(b),
        column_part(b),
        digit_part(b),
        q,
    );
    lemma_touches(row_part(a), column_part(a), digit_part(a), q);
    if q >= 81 {
        lemma_solved_once(
            grid,
            family_of(q),
            row_part(a),
            column_part(a),
            row_part(b),
            column_part(b),
        );
    }
}

/// The placements by which a solved grid goes beyond the clues are an
/// exact cover of the matrix that encodes the clues.
pub proof fn lemma_solution_covers(m: Links, clues: Seq<usize>, grid: Seq<usize>)
    requires
        encodes(m, clues),
        is_grid(clues),
        solved(grid),
        extends(grid, clues),
    ensures
        m.is_cover(moves(clues, grid)),
{
    let s = moves(clues, grid);
    assert forall|mr: int| #[trigger] s.contains(mr) implies 0 <= mr < m.row_count && m.active(
        mr,
    ) by {
        lemma_active(m, mr);
        assert forall|q: int| #[trigger] m.has(mr, q) implies m.live.contains(q) by {
            assert(sudoku_has(mr, q));
            lemma_move_avoids_clues(clues, grid, mr, q);
        }
    }
    assert forall|q: int| m.live.contains(q) implies #[trigger] m.covers_once(s, q) by {
        let mr = lemma_move_for_rule(clues, grid, q);
        assert(s.contains(mr) && m.has(mr, q));
        assert forall|a: int, b: int|
            s.contains(a) && s.contains(b) && #[trigger] m.has(a, q) && #[trigger] m.has(
                b,
                q,
            ) implies a == b by {
            lemma_moves_meet(clues, grid, a, b, q);
        }
    }
}

/// No two clues among the first `t` cells break a rule between them.
pub open spec fn no_clash_before(clues: Seq<usize>, t: int) -> bool {
    forall|r1: int, c1: int, r2: int, c2: int|
        c1 + r1 * 9 < t && c2 + r2 * 9 < t ==> !#[trigger] clash(clues, r1, c1, r2, c2)
}

/// The rules that the clues in the first `t + 1` cells satisfy are those
/// that the clues in the first `t` cells satisfy and those of the clue in
/// cell `t`, if it holds one.
pub proof fn lemma_taken_step(clues: Seq<usize>, q: int, row: int, column: int)
    requires
        is_cell(row, column),
    ensures
        taken_before(clues, q, column + row * 9 + 1) <==> taken_before(
            clues,
            q,
            column + row * 9,
        ) || (digit_at(clues, row, column) != 0 && touches(
            row,
            column,
            digit_at(clues, row, column),
            q,
        )),
{
    let t = column + row * 9;
    if taken_before(clues, q, t + 1) {
        let (r2, c2) = choose|r2: int, c2: int|
            is_cell(r2, c2) && c2 + r2 * 9 < t + 1 && digit_at(clues, r2, c2) != 0
                && #[trigger] touches(r2, c2, digit_at(clues, r2, c2), q);
        if c2 + r2 * 9 < t {
            assert(taken_before(clues, q, t));
        } else {
            assert(r2 == row && c2 == column);
        }
    }
    if taken_before(clues, q, t) {
        let (r2, c2) = choose|r2: int, c2: int|
            is_cell(r2, c2) && c2 + r2 * 9 < t && digit_at(clues, r2, c2) != 0 && #[trigger] touches(
                r2,
                c2,
                digit_at(clues, r2, c2),
                q,
            );
        assert(touches(r2, c2, digit_at(clues, r2, c2), q));
    }
    if digit_at(clues, row, column) != 0 && touches(row, column, digit_at(clues, row, column), q) {
        assert(taken_before(clues, q, t + 1));
    }
}

/// A clue one of whose rules is satisfied by an earlier clue breaks a rule
/// with it.
pub proof fn lemma_taken_clashes(clues: Seq<usize>, row: int, column: int, q: int)
    requires
        is_grid(clues),
        is_cell(row, column),
        digit_at(clues, row, column) != 0,
        touches(row, column, digit_at(clues, row, column), q),
        taken_before(clues, q, column + row * 9),
    ensures
        !consistent(clues),
{
    let t = column + row * 9;
    let (r2, c2) = choose|r2: int, c2: int|
        is_cell(r2, c2) && c2 + r2 * 9 < t && digit_at(clues, r2, c2) != 0 && #[trigger] touches(
            r2,
            c2,
            digit_at(clues, r2, c2),
            q,
        );
    lemma_digit_at(clues, row, column);
    lemma_digit_at(clues, r2, c2);
    lemma_touch_both(
        row,
        column,
        digit_at(clues, row, column),
        r2,
        c2,
        digit_at(clues, r2, c2),
        q,
    );
    assert(clash(clues, row, column, r2, c2));
}

/// A clue none of whose rules is satisfied by an earlier clue breaks no
/// rule with one.
pub proof fn lemma_no_clash_step(clues: Seq<usize>, row: int, column: int)
    requires
        is_grid(clues),
        is_cell(row, column),
        no_clash_before(clues, column + row * 9),
        digit_at(clues, row, column) != 0 ==> forall|family: Constraint|
            !taken_before(
                clues,
                #[trigger] rule_of(family, row, column, digit_at(clues, row, column)),
                column + row * 9,
            ),
    ensures
        no_clash_before(clues, column + row * 9 + 1),
{
    let t = column + row * 9;
    let d = digit_at(clues, row, column);
    lemma_digit_at(clues, row, column);
    assert forall|r1: int, c1: int, r2: int, c2: int|
        c1 + r1 * 9 < t + 1 && c2 + r2 * 9 < t + 1 implies !#[trigger] clash(
        clues,
        r1,
        c1,
        r2,
        c2,
    ) by {
        if clash(clues, r1, c1, r2, c2) {
            let here1 = r1 == row && c1 == column;
            let here2 = r2 == row && c2 == column;
            if c1 + r1 * 9 < t && c2 + r2 * 9 < t {
            } else {
                let (ro, co) = if here1 { (r2, c2) } else { (r1, c1) };
                assert(here1 || here2);
                assert(co + ro * 9 < t);
                let family = if ro == row {
                    Constraint::Row
                } else if co == column {
                    Constraint::Column
                } else {
                    Constraint::Box
                };
                let q = rule_of(family, row, column, d);
                lemma_rule_range(family, ro, co, d);
                assert(q == rule_of(family, ro, co, d));
                assert(touches(ro, co, digit_at(clues, ro, co), q));
                assert(taken_before(clues, q, t));
            }
        }
    }
}

/// The matrix is at rest and holds the rows of the first `t` placements of
/// the puzzle's matrix, and no others.
pub open spec fn built_to(m: Links, t: int) -> bool {
    &&& m.base_wf()
    &&& m.trail.len() == 0
    &&& m.row_count == 729
    &&& m.column_count == 324
    &&& m.nodes.len() == 325 + 4 * t
    &&& m.live == Links::empty(729, 324).live
    &&& forall|mr: int, q: int|
        0 <= mr < 729 ==> (#[trigger] m.has(mr, q) <==> mr < t && sudoku_has(mr, q))
}

/// The matrix is the puzzle's matrix with the rules covered that the clues
/// in the first `t` cells satisfy.
pub open spec fn covered_to(m: Links, clues: Seq<usize>, t: int) -> bool {
    &&& m.wf()
    &&& m.row_count == 729
    &&& m.column_count == 324
    &&& forall|mr: int, q: int| 0 <= mr < 729 ==> (#[trigger] m.has(mr, q) <==> sudoku_has(mr, q))
    &&& forall|q: int| #[trigger] m.live.contains(q) <==> 0 <= q < 324 && !taken_before(clues, q, t)
}

/// The cleared matrix holds no row of the puzzle's matrix yet.
pub proof fn lemma_built_none()
    ensures
        built_to(Links::empty(729, 324), 0),
{
    let m = Links::empty(729, 324);
    lemma_empty_wf(729, 324);
    assert forall|mr: int, q: int| 0 <= mr < 729 implies !#[trigger] m.has(mr, q) by {
        assert(m.rows[mr].len() == 0);
    }
}

/// The matrix after the four ones of the next placement were added, one
/// family after another.
pub open spec fn with_placement(m: Links, row: int, column: int, digit: int, families: int) -> Links
    decreases families,
{
    if families <= 0 {
        m
    } else {
        with_placement(m, row, column, digit, families - 1).with_entry(
            placement(row, column, digit),
            rule_of(family(families - 1), row, column, digit),
        )
    }
}

/// The family at the given place among the four.
pub open spec fn family(rank: int) -> Constraint {
    if rank == 0 {
        Constraint::Cell
    } else if rank == 1 {
        Constraint::Row
    } else if rank == 2 {
        Constraint::Column
    } else {
        Constraint::Box
    }
}

/// The four ones of the next placement can be added one after another.
pub proof fn lemma_build_row(m: Links, row: int, column: int, digit: int, families: int)
    requires
        is_cell(row, column),
        is_digit(digit),
        built_to(m, placement(row, column, digit)),
        0 <= families <= 4,
    ensures
        ({
            let t = placement(row, column, digit);
            let w = with_placement(m, row, column, digit, families);
            &&& w.base_wf()
            &&& w.trail.len() == 0
            &&& w.row_count == 729
            &&& w.column_count == 324
            &&& w.nodes.len() == 325 + 4 * t + families
            &&& w.live == m.live
            &&& forall|mr: int, q: int|
                0 <= mr < 729 ==> (#[trigger] w.has(mr, q) <==> (mr < t && sudoku_has(mr, q)) || (mr
                    == t && exists|k: int|
                    0 <= k < families && q == rule_of(#[trigger] family(k), row, column, digit)))
            &&& families < 4 ==> w.can_add(t, rule_of(family(families), row, column, digit))
                && !w.has(t, rule_of(family(families), row, column, digit))
            &&& families == 4 ==> built_to(w, t + 1)
        }),
    decreases families,
{
    let t = placement(row, column, digit);
    lemma_placement_parts(row, column, digit);
    let w = with_placement(m, row, column, digit, families);
    if families > 0 {
        lemma_build_row(m, row, column, digit, families - 1);
        let v = with_placement(m, row, column, digit, families - 1);
        let q0 = rule_of(family(families - 1), row, column, digit);
        lemma_with_entry_wf(v, t, q0);
        lemma_with_entry_has(v, t, q0);
        assert forall|mr: int, q: int| 0 <= mr < 729 implies (#[trigger] w.has(mr, q) <==> (mr < t
            && sudoku_has(mr, q)) || (mr == t && exists|k: int|
            0 <= k < families && q == rule_of(#[trigger] family(k), row, column, digit))) by {
            assert(w.has(mr, q) <==> v.has(mr, q) || (mr == t && q == q0));
            if mr == t && q == q0 {
                assert(q == rule_of(family(families - 1), row, column, digit));
            }
            if mr == t && exists|k: int|
                0 <= k < families && q == rule_of(#[trigger] family(k), row, column, digit) {
                let k = choose|k: int|
                    0 <= k < families && q == rule_of(#[trigger] family(k), row, column, digit);
                if k < families - 1 {
                    assert(v.has(mr, q));
                }
            }
        }
    }
    lemma_wf_is_loose(w);
    if families < 4 {
        let q1 = rule_of(family(families), row, column, digit);
        lemma_rule_range(family(families), row, column, digit);
        assert(!w.has(t, q1)) by {
            if w.has(t, q1) {
                let k = choose|k: int|
                    0 <= k < families && q1 == rule_of(#[trigger] family(k), row, column, digit);
                lemma_rule_range(family(k), row, column, digit);
            }
        }
    } else {
        assert forall|mr: int, q: int| 0 <= mr < 729 implies (#[trigger] w.has(mr, q) <==> mr < t
            + 1 && sudoku_has(mr, q)) by {
            if mr == t {
                if sudoku_has(mr, q) {
                    let k = family_rank(family_of(q));
                    lemma_touches(row, column, digit, q);
                    assert(family(k) == family_of(q));
                }
                if w.has(mr, q) {
                    let k = choose|k: int|
                        0 <= k < families && q == rule_of(#[trigger] family(k), row, column, digit);
                    lemma_rule_range(family(k), row, column, digit);
                }
            }
        }
    }
}

/// The matrix after the rules of the clue at a cell were covered, one
/// family after another.
pub open spec fn with_clue(m: Links, row: int, column: int, digit: int, families: int) -> Links
    decreases families,
{
    if families <= 0 {
        m
    } else {
        with_clue(m, row, column, digit, families - 1).covered(
            rule_of(family(families - 1), row, column, digit),
        )
    }
}

/// The rules of a clue that breaks no rule with an earlier clue can be
/// covered one after another.
pub proof fn lemma_cover_clue(m: Links, clues: Seq<usize>, row: int, column: int, families: int)
    requires
        is_grid(clues),
        consistent(clues),
        is_cell(row, column),
        digit_at(clues, row, column) != 0,
        covered_to(m, clues, column + row * 9),
        0 <= families <= 4,
    ensures
        ({
            let t = column + row * 9;
            let digit = digit_at(clues, row, column);
            let w = with_clue(m, row, column, digit, families);
            &&& w.wf()
            &&& m.same_matrix(w)
            &&& forall|q: int| #[trigger]
                w.live.contains(q) <==> m.live.contains(q) && !exists|k: int|
                    0 <= k < families && q == rule_of(#[trigger] family(k), row, column, digit)
            &&& families < 4 ==> w.live.contains(rule_of(family(families), row, column, digit))
            &&& families == 4 ==> covered_to(w, clues, t + 1)
        }),
    decreases families,
{
    let t = column + row * 9;
    let digit = digit_at(clues, row, column);
    lemma_digit_at(clues, row, column);
    let w = with_clue(m, row, column, digit, families);
    if families > 0 {
        lemma_cover_clue(m, clues, row, column, families - 1);
        let v = with_clue(m, row, column, digit, families - 1);
        let q0 = rule_of(family(families - 1), row, column, digit);
        lemma_covered(v, q0);
        lemma_covered_wf(v, q0);
        lemma_same_matrix(m, v, w);
        assert forall|q: int| #[trigger]
            w.live.contains(q) <==> m.live.contains(q) && !exists|k: int|
                0 <= k < families && q == rule_of(#[trigger] family(k), row, column, digit) by {
            assert(w.live.contains(q) <==> v.live.contains(q) && q != q0);
            if exists|k: int| 0 <= k < families && q == rule_of(#[trigger] family(k), row, column, digit) {
                let k = choose|k: int|
                    0 <= k < families && q == rule_of(#[trigger] family(k), row, column, digit);
                if k < families - 1 {
                    assert(!v.live.contains(q));
                }
            }
            if q == q0 {
                assert(q == rule_of(family(families - 1), row, column, digit));
            }
        }
    }
    if families < 4 {
        let q1 = rule_of(family(families), row, column, digit);
        lemma_rule_range(family(families), row, column, digit);
        if taken_before(clues, q1, t) {
            lemma_taken_clashes(clues, row, column, q1);
        }
        assert(m.live.contains(q1));
        if exists|k: int| 0 <= k < families && q1 == rule_of(#[trigger] family(k), row, column, digit) {
            let k = choose|k: int|
                0 <= k < families && q1 == rule_of(#[trigger] family(k), row, column, digit);
            lemma_rule_range(family(k), row, column, digit);
        }
    } else {
        lemma_same_ones(m, w);
        assert forall|q: int| #[trigger]
            w.live.contains(q) <==> 0 <= q < 324 && !taken_before(clues, q, t + 1) by {
            lemma_taken_step(clues, q, row, column);
            lemma_touches(row, column, digit, q);
            if touches(row, column, digit, q) {
                let k = family_rank(family_of(q));
                assert(family(k) == family_of(q));
            }
            if exists|k: int| 0 <= k < families && q == rule_of(#[trigger] family(k), row, column, digit) {
                let k = choose|k: int|
                    0 <= k < families && q == rule_of(#[trigger] family(k), row, column, digit);
                lemma_rule_range(family(k), row, column, digit);
            }
        }
    }
}

/// A cell without a clue takes no rule.
pub proof fn lemma_skip_cell(m: Links, clues: Seq<usize>, row: int, column: int)
    requires
        is_cell(row, column),
        digit_at(clues, row, column) == 0,
        covered_to(m, clues, column + row * 9),
    ensures
        covered_to(m, clues, column + row * 9 + 1),
{
    assert forall|q: int| #[trigger]
        m.live.contains(q) <==> 0 <= q < 324 && !taken_before(clues, q, column + row * 9 + 1) by {
        lemma_taken_step(clues, q, row, column);
    }
}

/// The matrix with every placement built, and at rest, is the puzzle's
/// matrix with no rule covered.
pub proof fn lemma_built_all(m: Links, clues: Seq<usize>)
    requires
        built_to(m, 729),
    ensures
        covered_to(m, clues, 0),
{
    assert forall|q: int| #[trigger] m.live.contains(q) <==> 0 <= q < 324 && !taken_before(
        clues,
        q,
        0,
    ) by {
        if 0 <= q < 324 {
            assert(m.live[q] == q);
        }
    }
}

/// The matrix with the rows of the first `t` placements, built row by row
/// from the cleared matrix.
pub open spec fn built(t: int) -> Links
    decreases t,
{
    if t <= 0 {
        Links::empty(729, 324)
    } else {
        with_placement(built(t - 1), row_part(t - 1), column_part(t - 1), digit_part(t - 1), 4)
    }
}

/// The puzzle's matrix after the rules of the clues in the first `t` cells
/// were covered, cell by cell.
pub open spec fn clued(clues: Seq<usize>, t: int) -> Links
    decreases t,
{
    if t <= 0 {
        built(729)
    } else {
        let before = clued(clues, t - 1);
        let row = (t - 1) / 9;
        let column = (t - 1) % 9;
        if digit_at(clues, row, column) == 0 {
            before
        } else {
            with_clue(before, row, column, digit_at(clues, row, column), 4)
        }
    }
}

/// The matrix that stands for a puzzle: the exact-cover matrix of the
/// empty grid, with the rules covered that the clues satisfy.
pub open spec fn puzzle_matrix(clues: Seq<usize>) -> Links {
    clued(clues, 81)
}

/// The grid after the placements of the matrix rows `rows` were written
/// into it, first to last.
pub open spec fn written(grid: Seq<usize>, rows: Seq<int>) -> Seq<usize>
    decreases rows.len(),
{
    if rows.len() == 0 {
        grid
    } else {
        written(grid, rows.drop_last()).update(
            column_part(rows.last()) + row_part(rows.last()) * 9,
            digit_part(rows.last()) as usize,
        )
    }
}

/// Building the next row of the puzzle's matrix.
pub proof fn lemma_built_step(row: int, column: int, digit: int)
    requires
        is_cell(row, column),
        is_digit(digit),
    ensures
        built(placement(row, column, digit) + 1) == with_placement(
            built(placement(row, column, digit)),
            row,
            column,
            digit,
            4,
        ),
{
    lemma_placement_parts(row, column, digit);
}

/// Going on to the next cell of the clues.
pub proof fn lemma_clued_step(clues: Seq<usize>, row: int, column: int)
    requires
        is_cell(row, column),
    ensures
        clued(clues, column + row * 9 + 1) == if digit_at(clues, row, column) == 0 {
            clued(clues, column + row * 9)
        } else {
            with_clue(clued(clues, column + row * 9), row, column, digit_at(clues, row, column), 4)
        },
{
    let t = column + row * 9;
    assert(t / 9 == row && t % 9 == column);
}

} // verus!
