//! The Sudoku board and the encoding of its placements as matrix coordinates.

use vstd::prelude::*;
use vstd::std_specs::cmp::PartialEqSpecImpl;
use vstd::string::*;
use crate::exact::{as_ints, row_set};
use crate::matrix::Matrix;
use crate::rules::{
    built, built_to, clash, clued, column_part, consistent, covered_to, digit_at, digit_part,
    encodes, extends, is_cell, is_grid, lemma_build_row, lemma_built_all, lemma_built_none,
    lemma_built_step, lemma_clash_unsolvable, lemma_clued_step, lemma_cover_clue,
    lemma_cover_solves, lemma_move_is_free, lemma_moves_apart, lemma_no_clash_step,
    lemma_placement, lemma_placement_parts, lemma_rule_range, lemma_skip_cell,
    lemma_solution_covers, lemma_taken_clashes, lemma_taken_step, lemma_touches, no_clash_before,
    placement, puzzle_matrix, row_part, rule_of, solved, taken_before, unit_of, with_clue,
    with_placement, written,
};

verus! {

/// A possible choice in a puzzle: to place `number` at (`row`, `column`).
#[derive(Debug, Clone, Copy, PartialEq, Eq, Structural)]
pub struct Possibility {
    /// In [0, 9).
    pub row: usize,
    /// In [0, 9).
    pub column: usize,
    /// In [1, 9].
    pub number: usize,
}

/// The four families of uniqueness rules: a cell holds one digit, and a row,
/// a column and a box each hold every digit once.
#[derive(Debug, Clone, Copy, PartialEq, Eq, Structural)]
pub enum Constraint {
    Cell,
    Row,
    Column,
    Box,
}

impl Possibility {
    /// The cell is on the board and the number is a digit.
    pub open spec fn wf(&self) -> bool {
        &&& self.row < 9
        &&& self.column < 9
        &&& 1 <= self.number <= 9
    }

    /// The placement that matrix row `r` stands for.
    pub open spec fn of_row(r: int) -> Possibility {
        Possibility {
            row: row_part(r) as usize,
            column: column_part(r) as usize,
            number: digit_part(r) as usize,
        }
    }

    /// The matrix row that stands for this placement.
    pub open spec fn matrix_row(&self) -> int {
        placement(self.row as int, self.column as int, self.number as int)
    }

    /// The matrix column of the rule of the given family that this placement
    /// satisfies.
    pub open spec fn column_in(&self, family: Constraint) -> int {
        rule_of(family, self.row as int, self.column as int, self.number as int)
    }

    /// The placement of `number` at (`row`, `column`).
    pub fn new(row: usize, column: usize, number: usize) -> (p: Possibility)
        requires
            row < 9,
            column < 9,
            1 <= number <= 9,
        ensures
            p == (Possibility { row, column, number }),
            p.wf(),
    {
        Possibility { row, column, number }
    }

    /// The placement that a matrix row stands for.
    pub fn from_matrix_row(matrix_row: usize) -> (p: Possibility)
        requires
            matrix_row < 729,
        ensures
            p == Possibility::of_row(matrix_row as int),
            p.wf(),
            p.matrix_row() == matrix_row,
    {
        proof {
            lemma_placement(matrix_row as int);
        }
        let row = matrix_row / 81;
        let column = matrix_row / 9 % 9;
        let number = matrix_row % 9 + 1;
        Possibility { row, column, number }
    }

    /// The matrix row that stands for this placement.
    pub fn get_matrix_row(&self) -> (r: usize)
        requires
            self.wf(),
        ensures
            r == self.matrix_row(),
            r < 729,
            Possibility::of_row(r as int) == *self,
    {
        proof {
            lemma_placement_parts(self.row as int, self.column as int, self.number as int);
        }
        self.row * 81 + self.column * 9 + self.number - 1
    }

    /// The matrix column of the rule of the given family that this placement
    /// satisfies.
    pub fn get_matrix_column(&self, constraint: Constraint) -> (c: usize)
        requires
            self.wf(),
        ensures
            c == self.column_in(constraint),
            c < 324,
    {
        match constraint {
            Constraint::Cell => { self.column + self.row * 9 },
            Constraint::Row => { 81 + self.row * 9 + self.number - 1 },
            Constraint::Column => { 162 + self.column * 9 + self.number - 1 },
            Constraint::Box => {
                let box_ = (self.column / 3) + (self.row / 3) * 3;
                243 + box_ * 9 + self.number - 1
            },
        }
    }
}

/// A placement and its matrix row stand for each other: the placement of
/// the matrix row of a placement is that placement, and the matrix row of
/// the placement of a matrix row is that row.
pub proof fn lemma_matrix_row_round_trip(p: Possibility, matrix_row: int)
    requires
        p.wf(),
        0 <= matrix_row < 729,
    ensures
        0 <= p.matrix_row() < 729,
        Possibility::of_row(p.matrix_row()) == p,
        Possibility::of_row(matrix_row).wf(),
        Possibility::of_row(matrix_row).matrix_row() == matrix_row,
{
    lemma_placement_parts(p.row as int, p.column as int, p.number as int);
    lemma_placement(matrix_row);
}

/// The matrix column of a placement in a family depends on the unit and on
/// the digit alone: two placements have the same cell's rule exactly if they
/// are in the same cell, whatever their digits, and the same rule of a row,
/// a column or a box exactly if they put the same digit into the same row,
/// column or box, wherever in it.
pub proof fn lemma_matrix_column_of_unit(a: Possibility, b: Possibility, family: Constraint)
    requires
        a.wf(),
        b.wf(),
    ensures
        a.column_in(family) == b.column_in(family) <==> unit_of(
            family,
            a.row as int,
            a.column as int,
        ) == unit_of(family, b.row as int, b.column as int) && (family == Constraint::Cell
            || a.number == b.number),
{
    lemma_rule_range(family, a.row as int, a.column as int, a.number as int);
    lemma_rule_range(family, b.row as int, b.column as int, b.number as int);
}

/// Why a text does not describe a board.
#[derive(Debug, Clone, Copy, PartialEq, Eq, Structural)]
pub enum ParseBoardError {
    /// The text goes on after the last cell was filled.
    TooManyEntries,
    /// The text ends before the last cell was filled.
    TooFewEntries,
    /// The text holds a character that stands for nothing.
    InvalidCharacter(char),
}

/// The two notations for a board.
#[derive(Debug, Clone, Copy, PartialEq, Eq, Structural)]
pub enum Notation {
    /// Digits, with `0` for an unknown cell.
    SingleLine,
    /// Digits from `1`, with `_` for an unknown cell.
    MultiLine,
}

/// The value that a character stands for, if it stands for a cell.
pub open spec fn value_of(c: char, notation: Notation) -> Option<usize> {
    match notation {
        Notation::SingleLine => if '0' <= c <= '9' {
            Some((c as u32 - '0' as u32) as usize)
        } else {
            None
        },
        Notation::MultiLine => if '1' <= c <= '9' {
            Some((c as u32 - '0' as u32) as usize)
        } else if c == '_' {
            Some(0usize)
        } else {
            None
        },
    }
}

/// The cells read so far and their number, or the reason to stop, after one
/// more character.
pub open spec fn scan_step(
    state: Result<(Seq<usize>, int), ParseBoardError>,
    c: char,
    notation: Notation,
) -> Result<(Seq<usize>, int), ParseBoardError> {
    match state {
        Err(e) => Err(e),
        Ok((cells, filled)) => if filled >= 81 {
            Err(ParseBoardError::TooManyEntries)
        } else {
            match value_of(c, notation) {
                Some(v) => Ok((cells.update(filled, v), filled + 1)),
                None => if c == ' ' {
                    Ok((cells, filled))
                } else {
                    Err(ParseBoardError::InvalidCharacter(c))
                },
            }
        },
    }
}

/// The outcome of reading a text from left to right: every character that
/// stands for a cell fills the next cell, spaces are skipped, and any other
/// character, or any character at all once the board is full, ends the
/// reading with an error.
pub open spec fn scan(text: Seq<char>, notation: Notation) -> Result<
    (Seq<usize>, int),
    ParseBoardError,
>
    decreases text.len(),
{
    if text.len() == 0 {
        Ok((Seq::new(81, |i: int| 0usize), 0))
    } else {
        scan_step(scan(text.drop_last(), notation), text.last(), notation)
    }
}

/// What a text describes: a board, if the text fills each of its 81 cells
/// and then ends, or the reason why it describes none.
pub open spec fn parsed(text: Seq<char>, notation: Notation) -> Result<Seq<usize>, ParseBoardError> {
    match scan(text, notation) {
        Ok((cells, filled)) => if filled < 81 {
            Err(ParseBoardError::TooFewEntries)
        } else {
            Ok(cells)
        },
        Err(e) => Err(e),
    }
}

/// The character that stands for a cell's value in a text.
pub open spec fn digit_char(value: usize) -> char {
    (value + 48) as char
}

/// The cells on one line: each value followed by a space.
pub open spec fn line_of(cells: Seq<usize>) -> Seq<char> {
    Seq::new(162, |i: int| if i % 2 == 0 { digit_char(cells[i / 2]) } else { ' ' })
}

/// The cells as a grid: nine lines of nine values, the values of a line a
/// space apart, and a line break between two lines.
pub open spec fn text_of(cells: Seq<usize>) -> Seq<char> {
    Seq::new(
        161,
        |i: int|
            if i % 2 == 0 {
                digit_char(cells[i / 2])
            } else if i % 18 == 17 {
                '\n'
            } else {
                ' '
            },
    )
}

/// Describes the state of a puzzle board.
#[derive(Debug, Clone)]
pub struct Board {
    /// In row-major order; 0 where the digit is unknown.
    entries: [usize; 81],
}

impl View for Board {
    type V = Seq<usize>;

    closed spec fn view(&self) -> Seq<usize> {
        self.entries@
    }
}

impl PartialEq for Board {
    /// Two boards are equal when they hold the same in every cell.
    fn eq(&self, other: &Self) -> (equal: bool) {
        let mut i: usize = 0;
        while i < 81
            invariant
                i <= 81,
                forall|j: int| 0 <= j < i ==> self@[j] == other@[j],
            decreases 81 - i,
        {
            if self.entries[i] != other.entries[i] {
                return false;
            }
            i += 1;
        }
        assert(self@ =~= other@);
        true
    }
}

impl Eq for Board {

}

impl PartialEqSpecImpl for Board {
    open spec fn obeys_eq_spec() -> bool {
        true
    }

    open spec fn eq_spec(&self, other: &Board) -> bool {
        self@ == other@
    }
}

impl Board {
    /// Every cell holds a digit or is unknown.
    pub open spec fn wf(&self) -> bool {
        is_grid(self@)
    }

    /// A board on which every cell is unknown.
    pub fn new() -> (board: Board)
        ensures
            board.wf(),
            board@ == Seq::new(81, |i: int| 0usize),
    {
        let board = Board { entries: [0;81] };
        assert(board@ =~= Seq::new(81, |i: int| 0usize));
        board
    }

    /// The digit at the given cell, if it is known.
    pub fn get_entry(&self, row: usize, column: usize) -> (entry: Option<usize>)
        requires
            self.wf(),
            row < 9,
            column < 9,
        ensures
            entry == if self@[column + row * 9] == 0 {
                None
            } else {
                Some(self@[column + row * 9])
            },
    {
        let entry = self.entries[column + row * 9];
        if entry == 0 {
            None
        } else {
            Some(entry)
        }
    }

    /// Whether no two clues break a rule between them: no two of them put
    /// one digit into one row, one column or one box.
    pub fn is_consistent(&self) -> (ok: bool)
        requires
            self.wf(),
        ensures
            ok == consistent(self@),
    {
        let mut used: Vec<bool> = Vec::new();
        let mut q: usize = 0;
        while q < 324
            invariant
                q <= 324,
                used.len() == q,
                forall|i: int| 0 <= i < q ==> !used@[i],
            decreases 324 - q,
        {
            used.push(false);
            q += 1;
        }
        let mut row: usize = 0;
        while row < 9
            invariant
                self.wf(),
                row <= 9,
                used.len() == 324,
                no_clash_before(self@, row * 9),
                forall|q: int| 0 <= q < 324 ==> (#[trigger] used@[q] <==> taken_before(self@, q, row * 9)),
            decreases 9 - row,
        {
            let mut column: usize = 0;
            while column < 9
                invariant
                    self.wf(),
                    row < 9,
                    column <= 9,
                    used.len() == 324,
                    no_clash_before(self@, column + row * 9),
                    forall|q: int|
                        0 <= q < 324 ==> (#[trigger] used@[q] <==> taken_before(
                            self@,
                            q,
                            column + row * 9,
                        )),
                decreases 9 - column,
            {
                let ghost t = column + row * 9;
                let ghost before = used@;
                let entry = self.entries[column + row * 9];
                if entry != 0 {
                    let possibility = Possibility::new(row, column, entry);
                    let cell_rule = possibility.get_matrix_column(Constraint::Cell);
                    let row_rule = possibility.get_matrix_column(Constraint::Row);
                    let column_rule = possibility.get_matrix_column(Constraint::Column);
                    let box_rule = possibility.get_matrix_column(Constraint::Box);
                    proof {
                        lemma_touches(row as int, column as int, entry as int, cell_rule as int);
                        lemma_touches(row as int, column as int, entry as int, row_rule as int);
                        lemma_touches(row as int, column as int, entry as int, column_rule as int);
                        lemma_touches(row as int, column as int, entry as int, box_rule as int);
                    }
                    if used[cell_rule] || used[row_rule] || used[column_rule] || used[box_rule] {
                        proof {
                            let q = if used[cell_rule as int] {
                                cell_rule
                            } else if used[row_rule as int] {
                                row_rule
                            } else if used[column_rule as int] {
                                column_rule
                            } else {
                                box_rule
                            };
                            lemma_taken_clashes(self@, row as int, column as int, q as int);
                        }
                        return false;
                    }
                    used[cell_rule] = true;
                    used[row_rule] = true;
                    used[column_rule] = true;
                    used[box_rule] = true;
                    proof {
                        assert forall|family: Constraint|
                            !taken_before(
                                self@,
                                #[trigger] rule_of(family, row as int, column as int, entry as int),
                                t,
                            ) by {
                            lemma_rule_range(family, row as int, column as int, entry as int);
                            let q = rule_of(family, row as int, column as int, entry as int);
                            assert(!before[q]);
                        }
                    }
                }
                proof {
                    lemma_no_clash_step(self@, row as int, column as int);
                    assert forall|q: int| 0 <= q < 324 implies (#[trigger] used@[q] <==> taken_before(
                        self@,
                        q,
                        t + 1,
                    )) by {
                        lemma_taken_step(self@, q, row as int, column as int);
                        assert(before[q] <==> taken_before(self@, q, t));
                        if entry != 0 {
                            lemma_touches(row as int, column as int, entry as int, q);
                        }
                    }
                }
                column += 1;
            }
            row += 1;
        }
        proof {
            assert forall|r1: int, c1: int, r2: int, c2: int| !#[trigger] clash(
                self@,
                r1,
                c1,
                r2,
                c2,
            ) by {
                if clash(self@, r1, c1, r2, c2) {
                    assert(c1 + r1 * 9 < 81 && c2 + r2 * 9 < 81);
                }
            }
        }
        true
    }

    /// Solves the puzzle: fills every unknown cell so that every row, every
    /// column and every box holds each digit once, and keeps the clues.
    /// Where the clues allow no such grid, the board stays as it is.
    pub fn solve(&mut self) -> (result: Result<(), ()>)
        requires
            old(self).wf(),
        ensures
            final(self).wf(),
            match result {
                Ok(_) => solved(final(self)@) && extends(final(self)@, old(self)@),
                Err(_) => final(self)@ == old(self)@ && forall|grid: Seq<usize>|
                    !(solved(grid) && #[trigger] extends(grid, old(self)@)),
            },
            result is Ok ==> consistent(old(self)@) && puzzle_matrix(old(self)@).first_cover()
                is Some && final(self)@ == written(
                old(self)@,
                puzzle_matrix(old(self)@).first_cover()->0,
            ),
    {
        let ghost clues = self@;
        if !self.is_consistent() {
            proof {
                assert forall|grid: Seq<usize>| !(solved(grid) && #[trigger] extends(grid, clues)) by {
                    if extends(grid, clues) {
                        lemma_clash_unsolvable(clues, grid);
                    }
                }
            }
            return Err(());
        }
        let mut matrix = Matrix::new(729, 324, 2916);
        // Builds the exact cover matrix and covers the rules that the clues satisfy.
        self.init_matrix(&mut matrix);
        let ghost m = matrix@;
        // The rows of the solution do not include the clues, which the board holds already.
        let solution_rows = match matrix.solve() {
            Ok(rows) => rows,
            Err(_) => {
                proof {
                    assert forall|grid: Seq<usize>| !(solved(grid) && #[trigger] extends(
                        grid,
                        clues,
                    )) by {
                        if solved(grid) && extends(grid, clues) {
                            lemma_solution_covers(m, clues, grid);
                        }
                    }
                }
                return Err(());
            },
        };
        let ghost s = row_set(solution_rows@);
        let mut i: usize = 0;
        proof {
            assert(as_ints(solution_rows@).take(0) =~= Seq::empty());
        }
        while i < solution_rows.len()
            invariant
                i <= solution_rows.len(),
                s == row_set(solution_rows@),
                solution_rows@.no_duplicates(),
                encodes(m, clues),
                is_grid(clues),
                m.is_cover(s),
                is_grid(self@),
                extends(self@, clues),
                self@ == written(clues, as_ints(solution_rows@).take(i as int)),
                forall|j: int|
                    0 <= j < i ==> digit_at(
                        self@,
                        row_part(#[trigger] solution_rows@[j] as int),
                        column_part(solution_rows@[j] as int),
                    ) == digit_part(solution_rows@[j] as int),
            decreases solution_rows.len() - i,
        {
            let matrix_row = solution_rows[i];
            let ghost mr = matrix_row as int;
            let ghost before = self@;
            proof {
                assert(s.contains(mr));
                lemma_move_is_free(m, clues, s, mr);
            }
            let possibility = Possibility::from_matrix_row(matrix_row);
            self.entries[possibility.column + possibility.row * 9] = possibility.number;
            proof {
                let r = row_part(mr);
                let c = column_part(mr);
                assert(self@ == before.update(c + r * 9, possibility.number));
                let longer = as_ints(solution_rows@).take(i + 1);
                assert(longer.drop_last() =~= as_ints(solution_rows@).take(i as int));
                assert(longer.last() == mr);
                assert forall|r2: int, c2: int|
                    is_cell(r2, c2) && digit_at(clues, r2, c2) != 0 implies #[trigger] digit_at(
                    self@,
                    r2,
                    c2,
                ) == digit_at(clues, r2, c2) by {
                    assert(digit_at(before, r2, c2) == digit_at(clues, r2, c2));
                    assert(!(r2 == r && c2 == c));
                }
                assert forall|j: int| 0 <= j < i + 1 implies digit_at(
                    self@,
                    row_part(#[trigger] solution_rows@[j] as int),
                    column_part(solution_rows@[j] as int),
                ) == digit_part(solution_rows@[j] as int) by {
                    let other = solution_rows@[j] as int;
                    if j < i {
                        assert(s.contains(other));
                        lemma_move_is_free(m, clues, s, other);
                        if row_part(other) == r && column_part(other) == c {
                            let q = rule_of(Constraint::Cell, r, c, 1);
                            lemma_rule_range(Constraint::Cell, r, c, digit_part(mr));
                            lemma_rule_range(Constraint::Cell, r, c, digit_part(other));
                            lemma_moves_apart(m, clues, s, mr, other, q);
                        }
                    }
                }
            }
            i += 1;
        }
        proof {
            assert forall|mr: int| #[trigger] s.contains(mr) implies digit_at(
                self@,
                row_part(mr),
                column_part(mr),
            ) == digit_part(mr) by {
                let j = choose|j: int|
                    0 <= j < solution_rows@.len() && (#[trigger] solution_rows@[j]) as int == mr;
                assert(solution_rows@[j] as int == mr);
            }
            lemma_cover_solves(m, clues, s, self@);
            assert(as_ints(solution_rows@).take(solution_rows@.len() as int) =~= as_ints(
                solution_rows@,
            ));
        }
        Ok(())
    }

    /// Sets the matrix up for this board: clears it, gives it the ones of
    /// the exact-cover matrix of the puzzle, a row for every placement with a
    /// one for each of the four rules that the placement satisfies, and then
    /// covers the four rules that each clue satisfies.  The clues must not
    /// break a rule between them.
    pub fn init_matrix(&self, matrix: &mut Matrix)
        requires
            self.wf(),
            consistent(self@),
            old(matrix)@.dims_ok(),
            old(matrix)@.row_count == 729,
            old(matrix)@.column_count == 324,
        ensures
            final(matrix)@.wf(),
            final(matrix)@ == puzzle_matrix(self@),
            encodes(final(matrix)@, self@),
    {
        matrix.clear();
        proof {
            lemma_built_none();
        }
        // First the full matrix: the ones of every combination of row, column and number.
        let mut row: usize = 0;
        while row < 9
            invariant
                row <= 9,
                built_to(matrix@, row * 81),
                matrix@ == built(row * 81),
            decreases 9 - row,
        {
            let mut column: usize = 0;
            while column < 9
                invariant
                    row < 9,
                    column <= 9,
                    built_to(matrix@, row * 81 + column * 9),
                    matrix@ == built(row * 81 + column * 9),
                decreases 9 - column,
            {
                let mut number: usize = 1;
                while number < 10
                    invariant
                        row < 9,
                        column < 9,
                        1 <= number <= 10,
                        built_to(matrix@, row * 81 + column * 9 + (number - 1)),
                        matrix@ == built(row * 81 + column * 9 + (number - 1)),
                    decreases 10 - number,
                {
                    let ghost before = matrix@;
                    proof {
                        lemma_build_row(before, row as int, column as int, number as int, 0);
                        lemma_build_row(before, row as int, column as int, number as int, 1);
                        lemma_build_row(before, row as int, column as int, number as int, 2);
                        lemma_build_row(before, row as int, column as int, number as int, 3);
                        lemma_build_row(before, row as int, column as int, number as int, 4);
                        lemma_built_step(row as int, column as int, number as int);
                        reveal_with_fuel(with_placement, 5);
                    }
                    let possibility = Possibility::new(row, column, number);
                    let matrix_row = possibility.get_matrix_row();
                    matrix.set_entry(matrix_row, possibility.get_matrix_column(Constraint::Cell));
                    matrix.set_entry(matrix_row, possibility.get_matrix_column(Constraint::Row));
                    matrix.set_entry(matrix_row, possibility.get_matrix_column(Constraint::Column));
                    matrix.set_entry(matrix_row, possibility.get_matrix_column(Constraint::Box));
                    number += 1;
                }
                column += 1;
            }
            row += 1;
        }
        proof {
            lemma_built_all(matrix@, self@);
        }
        // Then the clues: each satisfies four rules, whose columns are covered.
        let mut row: usize = 0;
        while row < 9
            invariant
                self.wf(),
                consistent(self@),
                row <= 9,
                covered_to(matrix@, self@, row * 9),
                matrix@ == clued(self@, row * 9),
            decreases 9 - row,
        {
            let mut column: usize = 0;
            while column < 9
                invariant
                    self.wf(),
                    consistent(self@),
                    row < 9,
                    column <= 9,
                    covered_to(matrix@, self@, column + row * 9),
                    matrix@ == clued(self@, column + row * 9),
                decreases 9 - column,
            {
                let entry = self.entries[column + row * 9];
                proof {
                    lemma_clued_step(self@, row as int, column as int);
                }
                if entry == 0 {
                    proof {
                        lemma_skip_cell(matrix@, self@, row as int, column as int);
                    }
                } else {
                    let ghost before = matrix@;
                    proof {
                        lemma_cover_clue(before, self@, row as int, column as int, 0);
                        lemma_cover_clue(before, self@, row as int, column as int, 1);
                        lemma_cover_clue(before, self@, row as int, column as int, 2);
                        lemma_cover_clue(before, self@, row as int, column as int, 3);
                        lemma_cover_clue(before, self@, row as int, column as int, 4);
                        reveal_with_fuel(with_clue, 5);
                    }
                    let possibility = Possibility::new(row, column, entry);
                    matrix.cover_column(possibility.get_matrix_column(Constraint::Cell));
                    matrix.cover_column(possibility.get_matrix_column(Constraint::Row));
                    matrix.cover_column(possibility.get_matrix_column(Constraint::Column));
                    matrix.cover_column(possibility.get_matrix_column(Constraint::Box));
                }
                column += 1;
            }
            row += 1;
        }
    }

    /// The cells on one line, each followed by a space, with `0` for an
    /// unknown cell.
    pub fn to_line(&self) -> (line: String)
        requires
            self.wf(),
        ensures
            line@ == line_of(self@),
    {
        let mut line = String::new();
        let mut i: usize = 0;
        proof {
            reveal_strlit(" ");
            assert(line@ =~= line_of(self@).take(0));
        }
        while i < 81
            invariant
                self.wf(),
                i <= 81,
                " "@ == seq![' '],
                line@ == line_of(self@).take(2 * i),
            decreases 81 - i,
        {
            line.append(digit_text(self.entries[i]));
            line.append(" ");
            proof {
                assert(line@ =~= line_of(self@).take(2 * (i + 1)));
            }
            i += 1;
        }
        proof {
            assert(line_of(self@).take(162) =~= line_of(self@));
        }
        line
    }

    /// The cells as a grid of nine lines, with `0` for an unknown cell.
    pub fn to_string(&self) -> (text: String)
        requires
            self.wf(),
        ensures
            text@ == text_of(self@),
    {
        let mut buf = String::new();
        let mut row: usize = 0;
        proof {
            assert(buf@ =~= text_of(self@).take(0));
        }
        while row < 9
            invariant
                self.wf(),
                row <= 9,
                buf@ == text_of(self@).take(if row == 9 { 161int } else { 18 * row }),
            decreases 9 - row,
        {
            fmt_row(self, &mut buf, row);
            row += 1;
        }
        proof {
            assert(text_of(self@).take(161) =~= text_of(self@));
        }
        buf
    }

    /// Reads a board from a text in the given notation.
    fn from_text(input: &str, notation: Notation) -> (result: Result<Board, ParseBoardError>)
        ensures
            match result {
                Ok(board) => board.wf() && parsed(input@, notation) == Ok::<
                    Seq<usize>,
                    ParseBoardError,
                >(board@),
                Err(e) => parsed(input@, notation) == Err::<Seq<usize>, ParseBoardError>(e),
            },
    {
        let mut entries = [0usize;81];
        let mut i: usize = 0;
        let n = input.unicode_len();
        let mut k: usize = 0;
        assert(input@.take(0) =~= Seq::empty());
        assert(entries@ =~= Seq::new(81, |i: int| 0usize));
        while k < n
            invariant
                n == input@.len(),
                k <= n,
                i <= 81,
                entries@.len() == 81,
                forall|j: int| 0 <= j < 81 ==> #[trigger] entries@[j] <= 9,
                scan(input@.take(k as int), notation) == Ok::<(Seq<usize>, int), ParseBoardError>(
                    (entries@, i as int),
                ),
            decreases n - k,
        {
            let c = input.get_char(k);
            proof {
                let longer = input@.take(k + 1);
                assert(longer.drop_last() =~= input@.take(k as int));
                assert(longer.last() == c);
            }
            if i >= 81 {
                proof {
                    lemma_scan_fails(input@, notation, k + 1);
                }
                return Err(ParseBoardError::TooManyEntries);
            }
            match digit_of(c, notation) {
                Some(value) => {
                    entries[i] = value;
                    i += 1;
                },
                None => {
                    if c != ' ' {
                        proof {
                            lemma_scan_fails(input@, notation, k + 1);
                        }
                        return Err(ParseBoardError::InvalidCharacter(c));
                    }
                },
            }
            k += 1;
        }
        assert(input@.take(n as int) =~= input@);
        if i < 81 {
            return Err(ParseBoardError::TooFewEntries);
        }
        Ok(Board { entries })
    }

    /// Reads a board from 81 digits in row-major order, with `0` for an
    /// unknown cell.  Spaces are skipped.
    pub fn from_singleline_str(input: &str) -> (result: Result<Board, ParseBoardError>)
        ensures
            match result {
                Ok(board) => board.wf() && parsed(input@, Notation::SingleLine) == Ok::<
                    Seq<usize>,
                    ParseBoardError,
                >(board@),
                Err(e) => parsed(input@, Notation::SingleLine) == Err::<Seq<usize>, ParseBoardError>(
                    e,
                ),
            },
    {
        Board::from_text(input, Notation::SingleLine)
    }

    /// Reads a board from 81 entries in row-major order, digits from `1`
    /// and `_` for an unknown cell.  Spaces are skipped.
    pub fn from_multiline_str(input: &str) -> (result: Result<Board, ParseBoardError>)
        ensures
            match result {
                Ok(board) => board.wf() && parsed(input@, Notation::MultiLine) == Ok::<
                    Seq<usize>,
                    ParseBoardError,
                >(board@),
                Err(e) => parsed(input@, Notation::MultiLine) == Err::<Seq<usize>, ParseBoardError>(
                    e,
                ),
            },
    {
        Board::from_text(input, Notation::MultiLine)
    }
}

/// Appends one line of the grid to `buf`, with a line break unless it is the
/// last line.
fn fmt_row(board: &Board, buf: &mut String, row: usize)
    requires
        board.wf(),
        row < 9,
        old(buf)@ == text_of(board@).take(18 * row),
    ensures
        final(buf)@ == text_of(board@).take(if row == 8 { 161int } else { 18 * (row + 1) }),
{
    let mut col: usize = 0;
    proof {
        reveal_strlit(" ");
        reveal_strlit("\n");
    }
    while col < 8
        invariant
            board.wf(),
            row < 9,
            col <= 8,
            " "@ == seq![' '],
            buf@ == text_of(board@).take(18 * row + 2 * col),
        decreases 8 - col,
    {
        buf.append(digit_text(board.entries[col + row * 9]));
        buf.append(" ");
        proof {
            assert(buf@ =~= text_of(board@).take(18 * row + 2 * (col + 1)));
        }
        col += 1;
    }
    let last_row = row == 8;
    buf.append(digit_text(board.entries[8 + row * 9]));
    if last_row {
        proof {
            assert(buf@ =~= text_of(board@).take(161));
        }
    } else {
        buf.append("\n");
        proof {
            assert(buf@ =~= text_of(board@).take(18 * (row + 1)));
        }
    }
}

/// The text of one cell's value.
pub(crate) fn digit_text(value: usize) -> (text: &'static str)
    requires
        value <= 9,
    ensures
        text@ == seq![digit_char(value)],
{
    proof {
        reveal_strlit("0");
        reveal_strlit("1");
        reveal_strlit("2");
        reveal_strlit("3");
        reveal_strlit("4");
        reveal_strlit("5");
        reveal_strlit("6");
        reveal_strlit("7");
        reveal_strlit("8");
        reveal_strlit("9");
    }
    let text = if value == 0 {
        "0"
    } else if value == 1 {
        "1"
    } else if value == 2 {
        "2"
    } else if value == 3 {
        "3"
    } else if value == 4 {
        "4"
    } else if value == 5 {
        "5"
    } else if value == 6 {
        "6"
    } else if value == 7 {
        "7"
    } else if value == 8 {
        "8"
    } else {
        "9"
    };
    assert(text@ =~= seq![digit_char(value)]);
    text
}

/// The value that a character stands for, if it stands for a cell.
fn digit_of(c: char, notation: Notation) -> (value: Option<usize>)
    ensures
        value == value_of(c, notation),
        value is Some ==> value->0 <= 9,
{
    match notation {
        Notation::SingleLine => {
            if '0' <= c && c <= '9' {
                Some((c as u32 - '0' as u32) as usize)
            } else {
                None
            }
        },
        Notation::MultiLine => {
            if '1' <= c && c <= '9' {
                Some((c as u32 - '0' as u32) as usize)
            } else if c == '_' {
                Some(0)
            } else {
                None
            }
        },
    }
}

/// Once the reading of a text has failed, it has failed for good.
proof fn lemma_scan_fails(text: Seq<char>, notation: Notation, k: int)
    requires
        0 <= k <= text.len(),
        scan(text.take(k), notation) is Err,
    ensures
        scan(text, notation) == scan(text.take(k), notation),
    decreases text.len() - k,
{
    if k == text.len() {
        assert(text.take(k) =~= text);
    } else {
        let longer = text.take(k + 1);
        assert(longer.drop_last() =~= text.take(k));
        lemma_scan_fails(text, notation, k + 1);
    }
}

} // verus!
