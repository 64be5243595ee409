//! The exact-cover matrix of the puzzle in its dense layout: four links
//! for each placement, one per family of rules, and one header per rule.

use vstd::prelude::*;
use crate::board::Board;
use crate::coords::{
    down_of, top_of, up_of, DenseColumn, DenseRow, SparseColumn, COLUMNS, ROWS,
};
use crate::rules::{extends, family, solved};

verus! {

/// Something that can solve a board in place.
pub trait Solve {
    /// Fills the unknown cells of the board, or fails and leaves it as it
    /// was.
    fn solve(&mut self, board: &mut Board) -> (result: Result<(), ()>)
        requires
            old(board).wf(),
        ensures
            final(board).wf(),
            result is Ok ==> solved(final(board)@) && extends(final(board)@, old(board)@),
            result is Err ==> final(board)@ == old(board)@,
    ;
}

/// The neighbours of a one of the matrix.
#[derive(Debug, Clone, Copy)]
pub struct Link {
    /// The row of the one above in the same column.
    pub up: DenseRow,
    /// The row of the one below in the same column.
    pub down: DenseRow,
    /// The family of the one to the left in the same row.
    pub left: DenseColumn,
    /// The family of the one to the right in the same row.
    pub right: DenseColumn,
}

/// The head of a column of the matrix.
#[derive(Debug, Clone, Copy)]
pub struct Header {
    /// The number of ones left in the column.
    pub column_size: usize,
    /// The column that this is the head of.
    pub column_index: SparseColumn,
    /// The row of the topmost one of the column.
    pub first_row: DenseRow,
    pub left: SparseColumn,
    pub right: SparseColumn,
}

/// The matrix in its dense layout.
pub struct DLXSolver {
    matrix: [[Link; 4]; 729],
    headers: [Header; 324],
}

/// The link of row `r` in family `k` when no column is covered.
pub open spec fn natural_link(r: int, k: int) -> Link {
    Link {
        up: DenseRow(up_of(r, family(k)) as usize),
        down: DenseRow(down_of(r, family(k)) as usize),
        left: DenseColumn(((k + 3) % 4) as usize),
        right: DenseColumn(((k + 1) % 4) as usize),
    }
}

/// The header of column `c` when no column is covered.
pub open spec fn natural_header(c: int) -> Header {
    Header {
        column_size: 9,
        column_index: SparseColumn(c as usize),
        first_row: DenseRow(top_of(c) as usize),
        left: SparseColumn((if c == 0 { COLUMNS - 1 } else { c - 1 }) as usize),
        right: SparseColumn((if c == COLUMNS - 1 { 0 } else { c + 1 }) as usize),
    }
}

impl DLXSolver {
    /// The link of row `r` in family `k`.
    pub closed spec fn link(&self, r: int, k: int) -> Link {
        self.matrix@[r]@[k]
    }

    /// The header of column `c`.
    pub closed spec fn header(&self, c: int) -> Header {
        self.headers@[c]
    }

    /// No column is covered: every one has its neighbours of the full
    /// matrix.
    pub open spec fn is_natural(&self) -> bool {
        &&& forall|r: int, k: int|
            0 <= r < ROWS && 0 <= k < 4 ==> #[trigger] self.link(r, k) == natural_link(r, k)
        &&& forall|c: int| 0 <= c < COLUMNS ==> #[trigger] self.header(c) == natural_header(c)
    }

    /// The full matrix, with no column covered.
    pub fn new() -> (solver: DLXSolver)
        ensures
            solver.is_natural(),
    {
        let link = Link {
            up: DenseRow(0),
            down: DenseRow(0),
            left: DenseColumn(0),
            right: DenseColumn(0),
        };
        let header = Header {
            column_size: 0,
            column_index: SparseColumn(0),
            first_row: DenseRow(0),
            left: SparseColumn(0),
            right: SparseColumn(0),
        };
        let matrix = [[link;4];729];
        let headers = [header;324];
        let mut solver = DLXSolver { matrix, headers };
        solver.clear();
        solver
    }

    /// Gives every one and every header its neighbours of the full matrix.
    fn clear(&mut self)
        ensures
            final(self).is_natural(),
    {
        let mut column_index: usize = 0;
        while column_index < COLUMNS
            invariant
                column_index <= COLUMNS,
                forall|c: int|
                    0 <= c < column_index ==> #[trigger] self.headers@[c] == natural_header(c),
            decreases COLUMNS - column_index,
        {
            let sparse_column_index = SparseColumn::new(column_index);
            let header = Header {
                column_size: 9,
                column_index: sparse_column_index,
                left: SparseColumn::new(
                    if column_index == 0 {
                        COLUMNS - 1
                    } else {
                        column_index - 1
                    },
                ),
                right: SparseColumn::new(
                    if column_index == COLUMNS - 1 {
                        0
                    } else {
                        column_index + 1
                    },
                ),
                first_row: sparse_column_index.first_row().to_dense(&sparse_column_index),
            };
            self.headers[column_index] = header;
            column_index += 1;
        }
        let mut row_index: usize = 0;
        while row_index < ROWS
            invariant
                row_index <= ROWS,
                forall|c: int| 0 <= c < COLUMNS ==> #[trigger] self.headers@[c] == natural_header(c),
                forall|r: int, k: int|
                    0 <= r < row_index && 0 <= k < 4 ==> #[trigger] self.matrix@[r]@[k]
                        == natural_link(r, k),
            decreases ROWS - row_index,
        {
            let dense_row = DenseRow::new(row_index);
            let mut row = self.matrix[row_index];
            reset_link(&mut row, &dense_row, 0);
            reset_link(&mut row, &dense_row, 1);
            reset_link(&mut row, &dense_row, 2);
            reset_link(&mut row, &dense_row, 3);
            self.matrix[row_index] = row;
            row_index += 1;
        }
    }

    /// The four links of a row.
    pub fn row_links(&self, row_index: usize) -> (links: [Link; 4])
        requires
            row_index < ROWS,
        ensures
            forall|k: int| 0 <= k < 4 ==> #[trigger] links@[k] == self.link(row_index as int, k),
    {
        self.matrix[row_index]
    }
}

/// Gives the link of one family its neighbours of the full matrix.
fn reset_link(row: &mut [Link; 4], dense_row: &DenseRow, dense_column_index: usize)
    requires
        dense_row.wf(),
        dense_column_index < 4,
    ensures
        final(row)@ == old(row)@.update(
            dense_column_index as int,
            natural_link(dense_row.0 as int, dense_column_index as int),
        ),
{
    let dense_column = DenseColumn::new(dense_column_index);
    let link = Link {
        left: dense_column.natural_left(),
        right: dense_column.natural_right(),
        up: dense_row.natural_up(&dense_column),
        down: dense_row.natural_down(&dense_column),
    };
    row[dense_column_index] = link;
}

impl Solve for DLXSolver {
    /// The dense layout has no search yet: every board is left as it is.
    fn solve(&mut self, board: &mut Board) -> (result: Result<(), ()>)
        ensures
            result is Err,
    {
        Err(())
    }
}

} // verus!
