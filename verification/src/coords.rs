//! Index arithmetic for the dense layout of the Sudoku exact-cover matrix.
//!
//! The full matrix has one *sparse row* per placement and one *sparse column*
//! per rule.  Every row holds exactly four ones, one per rule family, so the
//! same matrix can be stored densely with four *dense columns* per row.  The
//! functions here lead from one layout to the other and name the neighbours
//! of a one in the untouched matrix.

use vstd::prelude::*;
use vstd::arithmetic::div_mod::lemma_fundamental_div_mod_converse;
use crate::board::Constraint;
use crate::rules::{column_part, digit_part, family, lemma_placement, row_part, rule_of};

verus! {

/// Number of rows of the matrix: one per (row, column, digit) placement.
pub const ROWS: usize = 729;

/// Number of columns of the matrix: four families of 81 rules each.
pub const COLUMNS: usize = 324;

/// Index of a row in the sparse layout.
#[derive(Debug, Clone, Copy, PartialEq, Eq, Structural)]
pub struct SparseRow(pub usize);

/// Index of a column in the sparse layout.
#[derive(Debug, Clone, Copy, PartialEq, Eq, Structural)]
pub struct SparseColumn(pub usize);

/// Index of a row in the dense layout.
#[derive(Debug, Clone, Copy, PartialEq, Eq, Structural)]
pub struct DenseRow(pub usize);

/// Index of a column in the dense layout: the rule family, numbered 0 to 3.
#[derive(Debug, Clone, Copy, PartialEq, Eq, Structural)]
pub struct DenseColumn(pub usize);

/// The sparse column in which row `r` has its one for the given family:
/// the rule of that family that the placement of the row satisfies.
pub open spec fn column_of(r: int, family: Constraint) -> int {
    rule_of(family, row_part(r), column_part(r), digit_part(r))
}

/// Whether rows `a` and `b` have their one of the given family in the same
/// sparse column.
pub open spec fn share_column(a: int, b: int, family: Constraint) -> bool {
    column_of(a, family) == column_of(b, family)
}

/// The row above `r` in the ring of its column of the given family, with the
/// topmost row wrapping around to the lowest one.
pub open spec fn up_of(r: int, family: Constraint) -> int {
    match family {
        Constraint::Cell => if r % 9 == 0 { r + 8 } else { r - 1 },
        Constraint::Row => if (r / 9) % 9 == 0 { r + 72 } else { r - 9 },
        Constraint::Column => if (r / 81) % 9 == 0 { r + 648 } else { r - 81 },
        Constraint::Box => if (r / 9) % 3 != 0 {
            r - 9
        } else if ((r / 9) % 27) / 9 != 0 {
            r - 63
        } else {
            r + 180
        },
    }
}

/// The row below `r` in the ring of its column of the given family, with the
/// lowest row wrapping around to the topmost one.
pub open spec fn down_of(r: int, family: Constraint) -> int {
    match family {
        Constraint::Cell => if r % 9 == 8 { r - 8 } else { r + 1 },
        Constraint::Row => if (r / 9) % 9 == 8 { r - 72 } else { r + 9 },
        Constraint::Column => if (r / 81) % 9 == 8 { r - 648 } else { r + 81 },
        Constraint::Box => if (r / 9) % 3 != 2 {
            r + 9
        } else if ((r / 9) % 27) / 9 != 2 {
            r + 63
        } else {
            r - 180
        },
    }
}

/// The topmost row that has a one in sparse column `c`.
pub open spec fn top_of(c: int) -> int {
    if c < 81 {
        c * 9
    } else if c < 162 {
        ((c - 81) / 9) * 81 + (c - 81) % 9
    } else if c < 243 {
        c - 162
    } else {
        ((c - 243) / 27) * 243 + ((c - 243) % 27 / 9) * 27 + (c - 243) % 9
    }
}

impl DenseRow {
    /// The index is that of a row of the matrix.
    pub open spec fn wf(&self) -> bool {
        self.0 < ROWS
    }

    /// The dense row with the given index.
    pub fn new(dense_row_index: usize) -> (r: DenseRow)
        requires
            dense_row_index < ROWS,
        ensures
            r.0 == dense_row_index,
            r.wf(),
    {
        DenseRow(dense_row_index)
    }

    /// The same row in the sparse layout.
    pub fn to_sparse(&self) -> (r: SparseRow)
        ensures
            r.0 == self.0,
    {
        SparseRow(self.0)
    }

    /// The row of the neighbour above this one in the untouched matrix.
    pub fn natural_up(&self, column: &DenseColumn) -> (r: DenseRow)
        requires
            self.wf(),
            column.wf(),
        ensures
            r.wf(),
            r.0 == up_of(self.0 as int, family(column.0 as int)),
    {
        match column.constraint() {
            Constraint::Cell => {
                let row_position = self.0 % 9;
                if row_position == 0 {
                    DenseRow(self.0 + 8)
                } else {
                    DenseRow(self.0 - 1)
                }
            },
            Constraint::Row => {
                let row_group = self.0 / 9;
                if row_group % 9 == 0 {
                    DenseRow(self.0 + 72)
                } else {
                    DenseRow(self.0 - 9)
                }
            },
            Constraint::Column => {
                let row_group = self.0 / 81;
                if row_group % 9 == 0 {
                    DenseRow(self.0 + 648)
                } else {
                    DenseRow(self.0 - 81)
                }
            },
            Constraint::Box => {
                let row_group = self.0 / 9;
                if row_group % 3 == 0 {
                    let row_factor = (row_group % 27) / 9;
                    if row_factor == 0 {
                        DenseRow(self.0 + 180)
                    } else {
                        DenseRow(self.0 - 63)
                    }
                } else {
                    DenseRow(self.0 - 9)
                }
            },
        }
    }

    /// The row of the neighbour below this one in the untouched matrix.
    pub fn natural_down(&self, column: &DenseColumn) -> (r: DenseRow)
        requires
            self.wf(),
            column.wf(),
        ensures
            r.wf(),
            r.0 == down_of(self.0 as int, family(column.0 as int)),
    {
        match column.constraint() {
            Constraint::Cell => {
                let row_position = self.0 % 9;
                if row_position == 8 {
                    DenseRow(self.0 - 8)
                } else {
                    DenseRow(self.0 + 1)
                }
            },
            Constraint::Row => {
                let row_group = self.0 / 9;
                if row_group % 9 == 8 {
                    DenseRow(self.0 - 72)
                } else {
                    DenseRow(self.0 + 9)
                }
            },
            Constraint::Column => {
                let row_group = self.0 / 81;
                if row_group % 9 == 8 {
                    DenseRow(self.0 - 648)
                } else {
                    DenseRow(self.0 + 81)
                }
            },
            Constraint::Box => {
                let row_group = self.0 / 9;
                if row_group % 3 == 2 {
                    let row_factor = (row_group % 27) / 9;
                    if row_factor == 2 {
                        DenseRow(self.0 - 180)
                    } else {
                        DenseRow(self.0 + 63)
                    }
                } else {
                    DenseRow(self.0 + 9)
                }
            },
        }
    }
}

impl SparseRow {
    /// The index is that of a row of the matrix.
    pub open spec fn wf(&self) -> bool {
        self.0 < ROWS
    }

    /// The sparse row with the given index.
    pub fn new(sparse_row_index: usize) -> (r: SparseRow)
        requires
            sparse_row_index < ROWS,
        ensures
            r.0 == sparse_row_index,
            r.wf(),
    {
        SparseRow(sparse_row_index)
    }

    /// The same row in the dense layout.
    pub fn to_dense(&self, column: &SparseColumn) -> (r: DenseRow)
        ensures
            r.0 == self.0,
    {
        DenseRow(self.0)
    }
}

impl DenseColumn {
    /// The index is that of one of the four families.
    pub open spec fn wf(&self) -> bool {
        self.0 < 4
    }

    /// The dense column with the given index.
    pub fn new(dense_column_index: usize) -> (c: DenseColumn)
        requires
            dense_column_index < 4,
        ensures
            c.0 == dense_column_index,
            c.wf(),
    {
        DenseColumn(dense_column_index)
    }

    /// The sparse column in which `row` has its one for this family.
    pub fn to_sparse(&self, row: &DenseRow) -> (c: SparseColumn)
        requires
            self.wf(),
            row.wf(),
        ensures
            c.wf(),
            c.0 == column_of(row.0 as int, family(self.0 as int)),
    {
        proof {
            lemma_parts(row.0 as int);
        }
        match self.constraint() {
            Constraint::Cell => SparseColumn(row.0 / 9),
            Constraint::Row => SparseColumn(81 + row.0 % 9 + 9 * (row.0 / 81)),
            Constraint::Column => SparseColumn(162 + row.0 % 81),
            Constraint::Box => SparseColumn(
                243 + row.0 % 9 + 9 * ((row.0 / 27) % 3) + 27 * (row.0 / 243),
            ),
        }
    }

    /// The family that this dense column stands for.
    pub fn constraint(&self) -> (f: Constraint)
        requires
            self.wf(),
        ensures
            f == family(self.0 as int),
    {
        if self.0 == 0 {
            Constraint::Cell
        } else if self.0 == 1 {
            Constraint::Row
        } else if self.0 == 2 {
            Constraint::Column
        } else {
            Constraint::Box
        }
    }

    /// The family to the left of this one, the first wrapping to the last.
    pub fn natural_left(&self) -> (c: DenseColumn)
        requires
            self.wf(),
        ensures
            c.wf(),
            c.0 == (self.0 + 3) % 4,
    {
        DenseColumn::new(
            if self.0 == 0 {
                3
            } else if self.0 == 1 {
                0
            } else if self.0 == 2 {
                1
            } else {
                2
            },
        )
    }

    /// The family to the right of this one, the last wrapping to the first.
    pub fn natural_right(&self) -> (c: DenseColumn)
        requires
            self.wf(),
        ensures
            c.wf(),
            c.0 == (self.0 + 1) % 4,
    {
        DenseColumn::new(
            if self.0 == 0 {
                1
            } else if self.0 == 1 {
                2
            } else if self.0 == 2 {
                3
            } else {
                0
            },
        )
    }
}

impl SparseColumn {
    /// The index is that of a column of the matrix.
    pub open spec fn wf(&self) -> bool {
        self.0 < COLUMNS
    }

    /// The sparse column with the given index.
    pub fn new(sparse_column_index: usize) -> (c: SparseColumn)
        requires
            sparse_column_index < COLUMNS,
        ensures
            c.0 == sparse_column_index,
            c.wf(),
    {
        SparseColumn(sparse_column_index)
    }

    /// The family that this column belongs to.
    pub fn to_dense(&self) -> (c: DenseColumn)
        requires
            self.wf(),
        ensures
            c.wf(),
            c.0 == self.0 / 81,
    {
        DenseColumn::new(self.0 / 81)
    }

    /// The topmost row that has a one in this column.
    pub fn first_row(&self) -> (r: SparseRow)
        requires
            self.wf(),
        ensures
            r.wf(),
            r.0 == top_of(self.0 as int),
    {
        match self.to_dense().constraint() {
            Constraint::Cell => {
                let constraint_offset = self.0;
                SparseRow::new(constraint_offset * 9)
            },
            Constraint::Row => {
                let constraint_offset = self.0 - 81;
                SparseRow::new((constraint_offset / 9) * 81 + constraint_offset % 9)
            },
            Constraint::Column => {
                let constraint_offset = self.0 - 162;
                SparseRow::new(constraint_offset)
            },
            Constraint::Box => {
                let constraint_offset = self.0 - 243;
                let major_group = constraint_offset / 27;
                let minor_group = constraint_offset % 27 / 9;
                let stagger = constraint_offset % 9;
                SparseRow::new(major_group * 243 + minor_group * 27 + stagger)
            },
        }
    }
}

/// The row of the placement of digit `d + 1` at (`a`, `b`), taken apart.
pub open spec fn parts_are(r: int, a: int, b: int, d: int) -> bool {
    &&& 0 <= a < 9 && 0 <= b < 9 && 0 <= d < 9
    &&& r == 81 * a + 9 * b + d
    &&& r / 9 == 9 * a + b
    &&& r % 9 == d
    &&& r / 81 == a
    &&& r % 81 == 9 * b + d
    &&& (r / 9) % 9 == b
    &&& (r / 81) % 9 == a
    &&& (r / 9) % 3 == b % 3
    &&& ((r / 9) % 27) / 9 == a % 3
    &&& (r / 27) % 3 == b / 3
    &&& r / 243 == a / 3
    &&& row_part(r) == a && column_part(r) == b && digit_part(r) == d + 1
}

/// The quotients and remainders of a row by the strides of the matrix.
pub proof fn lemma_digits(a: int, b: int, d: int)
    requires
        0 <= a < 9,
        0 <= b < 9,
        0 <= d < 9,
    ensures
        parts_are(81 * a + 9 * b + d, a, b, d),
{
    let r = 81 * a + 9 * b + d;
    lemma_fundamental_div_mod_converse(r, 9, 9 * a + b, d);
    lemma_fundamental_div_mod_converse(r, 81, a, 9 * b + d);
    lemma_fundamental_div_mod_converse(9 * a + b, 9, a, b);
    lemma_fundamental_div_mod_converse(a, 9, 0, a);
    lemma_fundamental_div_mod_converse(9 * a + b, 3, 3 * a + b / 3, b % 3);
    lemma_fundamental_div_mod_converse(9 * a + b, 27, a / 3, 9 * (a % 3) + b);
    lemma_fundamental_div_mod_converse(9 * (a % 3) + b, 9, a % 3, b);
    lemma_fundamental_div_mod_converse(r, 27, 3 * a + b / 3, 9 * (b % 3) + d);
    lemma_fundamental_div_mod_converse(3 * a + b / 3, 3, a, b / 3);
    lemma_fundamental_div_mod_converse(r, 243, a / 3, 81 * (a % 3) + 9 * b + d);
}

/// Every row is the row of one placement.
pub proof fn lemma_parts(r: int)
    requires
        0 <= r < ROWS,
    ensures
        parts_are(r, row_part(r), column_part(r), digit_part(r) - 1),
        0 <= column_of(r, Constraint::Cell) < 81,
        81 <= column_of(r, Constraint::Row) < 162,
        162 <= column_of(r, Constraint::Column) < 243,
        243 <= column_of(r, Constraint::Box) < 324,
        column_of(r, Constraint::Cell) == r / 9,
        column_of(r, Constraint::Row) == 81 + r % 9 + 9 * (r / 81),
        column_of(r, Constraint::Column) == 162 + r % 81,
        column_of(r, Constraint::Box) == 243 + r % 9 + 9 * ((r / 27) % 3) + 27 * (r / 243),
{
    lemma_placement(r);
    lemma_digits(row_part(r), column_part(r), digit_part(r) - 1);
}

/// Up and down undo each other among the digits of a cell.
proof fn lemma_up_down_cell(a: int, b: int, d: int)
    requires
        0 <= a < 9,
        0 <= b < 9,
        0 <= d < 9,
    ensures
        ({
            let r = 81 * a + 9 * b + d;
            let f = Constraint::Cell;
            &&& 0 <= up_of(r, f) < ROWS && 0 <= down_of(r, f) < ROWS
            &&& down_of(up_of(r, f), f) == r && up_of(down_of(r, f), f) == r
            &&& share_column(up_of(r, f), r, f) && share_column(down_of(r, f), r, f)
        }),
{
    lemma_digits(a, b, d);
    lemma_digits(a, b, if d == 0 { 8 } else { d - 1 });
    lemma_digits(a, b, if d == 8 { 0 } else { d + 1 });
}

/// Up and down undo each other among the cells of a row.
proof fn lemma_up_down_row(a: int, b: int, d: int)
    requires
        0 <= a < 9,
        0 <= b < 9,
        0 <= d < 9,
    ensures
        ({
            let r = 81 * a + 9 * b + d;
            let f = Constraint::Row;
            &&& 0 <= up_of(r, f) < ROWS && 0 <= down_of(r, f) < ROWS
            &&& down_of(up_of(r, f), f) == r && up_of(down_of(r, f), f) == r
            &&& share_column(up_of(r, f), r, f) && share_column(down_of(r, f), r, f)
        }),
{
    lemma_digits(a, b, d);
    lemma_digits(a, if b == 0 { 8 } else { b - 1 }, d);
    lemma_digits(a, if b == 8 { 0 } else { b + 1 }, d);
}

/// Up and down undo each other among the cells of a column.
proof fn lemma_up_down_column(a: int, b: int, d: int)
    requires
        0 <= a < 9,
        0 <= b < 9,
        0 <= d < 9,
    ensures
        ({
            let r = 81 * a + 9 * b + d;
            let f = Constraint::Column;
            &&& 0 <= up_of(r, f) < ROWS && 0 <= down_of(r, f) < ROWS
            &&& down_of(up_of(r, f), f) == r && up_of(down_of(r, f), f) == r
            &&& share_column(up_of(r, f), r, f) && share_column(down_of(r, f), r, f)
        }),
{
    lemma_digits(a, b, d);
    lemma_digits(if a == 0 { 8 } else { a - 1 }, b, d);
    lemma_digits(if a == 8 { 0 } else { a + 1 }, b, d);
}

/// Up and down undo each other among the cells of a box.
proof fn lemma_up_down_box(a: int, b: int, d: int)
    requires
        0 <= a < 9,
        0 <= b < 9,
        0 <= d < 9,
    ensures
        ({
            let r = 81 * a + 9 * b + d;
            let f = Constraint::Box;
            &&& 0 <= up_of(r, f) < ROWS && 0 <= down_of(r, f) < ROWS
            &&& down_of(up_of(r, f), f) == r && up_of(down_of(r, f), f) == r
            &&& share_column(up_of(r, f), r, f) && share_column(down_of(r, f), r, f)
        }),
{
    lemma_digits(a, b, d);
    if b % 3 != 0 {
        lemma_digits(a, b - 1, d);
    } else if a % 3 != 0 {
        lemma_digits(a - 1, b + 2, d);
    } else {
        lemma_digits(a + 2, b + 2, d);
    }
    if b % 3 != 2 {
        lemma_digits(a, b + 1, d);
    } else if a % 3 != 2 {
        lemma_digits(a + 1, b - 2, d);
    } else {
        lemma_digits(a - 2, b - 2, d);
    }
}

/// Going up and then down, or down and then up, leads back to the same
/// row, and the neighbours of a row lie in its column.
pub proof fn lemma_up_down(r: int, k: int)
    requires
        0 <= r < ROWS,
        0 <= k < 4,
    ensures
        0 <= up_of(r, family(k)) < ROWS,
        0 <= down_of(r, family(k)) < ROWS,
        down_of(up_of(r, family(k)), family(k)) == r,
        up_of(down_of(r, family(k)), family(k)) == r,
        share_column(up_of(r, family(k)), r, family(k)),
        share_column(down_of(r, family(k)), r, family(k)),
{
    lemma_parts(r);
    let a = row_part(r);
    let b = column_part(r);
    let d = digit_part(r) - 1;
    if k == 0 {
        lemma_up_down_cell(a, b, d);
    } else if k == 1 {
        lemma_up_down_row(a, b, d);
    } else if k == 2 {
        lemma_up_down_column(a, b, d);
    } else {
        lemma_up_down_box(a, b, d);
    }
}

/// The topmost row of a column lies in it, and no row above it does.
pub proof fn lemma_top_is_least(c: int, r: int)
    requires
        0 <= c < COLUMNS,
        0 <= r < ROWS,
        column_of(r, family(c / 81)) == c,
    ensures
        0 <= top_of(c) <= r,
        column_of(top_of(c), family(c / 81)) == c,
{
    lemma_parts(r);
    let a = row_part(r);
    let b = column_part(r);
    let d = digit_part(r) - 1;
    if c < 81 {
        lemma_digits(a, b, 0);
    } else if c < 162 {
        lemma_fundamental_div_mod_converse(c - 81, 9, a, d);
        lemma_digits(a, 0, d);
    } else if c < 243 {
        lemma_digits(0, b, d);
    } else {
        let x = c - 243;
        assert(x == 27 * (a / 3) + 9 * (b / 3) + d);
        lemma_fundamental_div_mod_converse(x, 27, a / 3, 9 * (b / 3) + d);
        lemma_fundamental_div_mod_converse(9 * (b / 3) + d, 9, b / 3, d);
        lemma_fundamental_div_mod_converse(x, 9, 3 * (a / 3) + b / 3, d);
        lemma_digits(3 * (a / 3), 3 * (b / 3), d);
    }
}

} // verus!
