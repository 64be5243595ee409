use sudoku::board::{ParseBoardError, Possibility};
use sudoku::{Board, Matrix};

const CLASSIC: &str = "5 3 _ _ 7 _ _ _ _\
                       6 _ _ 1 9 5 _ _ _\
                       _ 9 8 _ _ _ _ 6 _\
                       8 _ _ _ 6 _ _ _ 3\
                       4 _ _ 8 _ 3 _ _ 1\
                       7 _ _ _ 2 _ _ _ 6\
                       _ 6 _ _ _ _ 2 8 _\
                       _ _ _ 4 1 9 _ _ 5\
                       _ _ _ _ 8 _ _ 7 9";

const CLASSIC_SOLVED: [[usize; 9]; 9] = [
    [5, 3, 4, 6, 7, 8, 9, 1, 2],
    [6, 7, 2, 1, 9, 5, 3, 4, 8],
    [1, 9, 8, 3, 4, 2, 5, 6, 7],
    [8, 5, 9, 7, 6, 1, 4, 2, 3],
    [4, 2, 6, 8, 5, 3, 7, 9, 1],
    [7, 1, 3, 9, 2, 4, 8, 5, 6],
    [9, 6, 1, 5, 3, 7, 2, 8, 4],
    [2, 8, 7, 4, 1, 9, 6, 3, 5],
    [3, 4, 5, 2, 8, 6, 1, 7, 9],
];

/// A text in the single-line notation that starts with the given entries
/// and goes on with unknown cells up to the last cell.
fn padded(start: &[usize]) -> String {
    let mut text = String::new();
    for cell in 0..81 {
        let value = if cell < start.len() { start[cell] } else { 0 };
        text.push_str(&format!("{} ", value));
    }
    text.trim_end().to_string()
}

fn cells(board: &Board) -> Vec<Option<usize>> {
    let mut all = Vec::new();
    for row in 0..9 {
        for column in 0..9 {
            all.push(board.get_entry(row, column));
        }
    }
    all
}

fn assert_rules_hold(board: &Board) {
    for unit in 0..9 {
        let mut in_row = [0usize; 10];
        let mut in_column = [0usize; 10];
        let mut in_box = [0usize; 10];
        for k in 0..9 {
            in_row[board.get_entry(unit, k).unwrap()] += 1;
            in_column[board.get_entry(k, unit).unwrap()] += 1;
            let row = (unit / 3) * 3 + k / 3;
            let column = (unit % 3) * 3 + k % 3;
            in_box[board.get_entry(row, column).unwrap()] += 1;
        }
        for digit in 1..10 {
            assert_eq!(in_row[digit], 1);
            assert_eq!(in_column[digit], 1);
            assert_eq!(in_box[digit], 1);
        }
    }
}

#[test]
fn board_from_multiline_str() {
    let board = Board::from_multiline_str(
    //   0 1 2 3 4 5 6 7 8
        "5 3 _ _ 7 _ _ _ _\
         6 _ _ 1 9 5 _ _ _\
         _ 9 8 _ _ _ _ 6 _\
         8 _ _ _ 6 _ _ _ 3\
         4 _ _ 8 _ 3 _ _ 1\
         7 _ _ _ 2 _ _ _ 6\
         _ 6 _ _ _ _ 2 8 _\
         _ _ _ 4 1 9 _ _ 5\
         _ _ _ _ 8 _ _ 7 9").unwrap();
    assert_eq!(Some(5), board.get_entry(0, 0));
    assert_eq!(Some(3), board.get_entry(0, 1));
    assert_eq!(None, board.get_entry(0, 2));
    assert_eq!(None, board.get_entry(0, 3));
    assert_eq!(Some(7), board.get_entry(0, 4));
    assert_eq!(Some(9), board.get_entry(1, 4));
    assert_eq!(None, board.get_entry(2, 6));
    assert_eq!(Some(6), board.get_entry(6, 1));
    assert_eq!(Some(7), board.get_entry(8, 7));
    assert_eq!(Some(9), board.get_entry(8, 8));
    assert_eq!(Some(6), board.get_entry(3, 4));
    assert_eq!(Some(8), board.get_entry(4, 3));
    assert_eq!(None, board.get_entry(4, 4));
    assert_eq!(Some(3), board.get_entry(4, 5));
    assert_eq!(Some(2), board.get_entry(5, 4));
}

#[test]
fn board_from_singleline_str() {
    let board = Board::from_singleline_str("5 3 0 0 7 0 0 0 0 6 0 0 1 9 5 0 0 0 0 9 8 0 0 0 0 6 0 8 0 0 0 6 0 0 0 3 4 0 0 8 0 3 0 0 1 7 0 0 0 2 0 0 0 6 0 6 0 0 0 0 2 8 0 0 0 0 4 1 9 0 0 5 0 0 0 0 8 0 0 7 9").unwrap();
    assert_eq!(Some(5), board.get_entry(0, 0));
    assert_eq!(Some(3), board.get_entry(0, 1));
    assert_eq!(None, board.get_entry(0, 2));
    assert_eq!(None, board.get_entry(0, 3));
    assert_eq!(Some(7), board.get_entry(0, 4));
    assert_eq!(Some(9), board.get_entry(1, 4));
    assert_eq!(None, board.get_entry(2, 6));
    assert_eq!(Some(6), board.get_entry(6, 1));
    assert_eq!(Some(7), board.get_entry(8, 7));
    assert_eq!(Some(9), board.get_entry(8, 8));
    assert_eq!(Some(6), board.get_entry(3, 4));
    assert_eq!(Some(8), board.get_entry(4, 3));
    assert_eq!(None, board.get_entry(4, 4));
    assert_eq!(Some(3), board.get_entry(4, 5));
    assert_eq!(Some(2), board.get_entry(5, 4));
}

#[test]
fn singleline_and_multiline_board_equivalency() {
    let a = Board::from_multiline_str(
    //   0 1 2 3 4 5 6 7 8
        "5 3 _ _ 7 _ _ _ _\
         6 _ _ 1 9 5 _ _ _\
         _ 9 8 _ _ _ _ 6 _\
         8 _ _ _ 6 _ _ _ 3\
         4 _ _ 8 _ 3 _ _ 1\
         7 _ _ _ 2 _ _ _ 6\
         _ 6 _ _ _ _ 2 8 _\
         _ _ _ 4 1 9 _ _ 5\
         _ _ _ _ 8 _ _ 7 9").unwrap();
    let b = Board::from_singleline_str("5 3 0 0 7 0 0 0 0 6 0 0 1 9 5 0 0 0 0 9 8 0 0 0 0 6 0 8 0 0 0 6 0 0 0 3 4 0 0 8 0 3 0 0 1 7 0 0 0 2 0 0 0 6 0 6 0 0 0 0 2 8 0 0 0 0 4 1 9 0 0 5 0 0 0 0 8 0 0 7 9").unwrap();
    for row in 0..9 {
        for col in 0..9 {
            assert_eq!(a.get_entry(row, col), b.get_entry(row, col));
        }
    }
}

#[test]
fn new_board_knows_no_cell() {
    let board = Board::new();
    assert!(cells(&board).iter().all(|cell| cell.is_none()));
}

#[test]
fn solve_completes_the_classic_puzzle() {
    let mut board = Board::from_multiline_str(CLASSIC).unwrap();
    let clues = cells(&board);
    assert_eq!(board.solve(), Ok(()));
    assert_rules_hold(&board);
    let solved = cells(&board);
    for cell in 0..81 {
        if clues[cell].is_some() {
            assert_eq!(solved[cell], clues[cell]);
        }
    }
    for row in 0..9 {
        for column in 0..9 {
            assert_eq!(board.get_entry(row, column), Some(CLASSIC_SOLVED[row][column]));
        }
    }
}

#[test]
fn solve_rejects_a_digit_twice_in_a_row() {
    let mut board = Board::from_singleline_str(&padded(&[5, 5])).unwrap();
    let before = cells(&board);
    assert!(!board.is_consistent());
    assert_eq!(board.solve(), Err(()));
    assert_eq!(cells(&board), before);
}

#[test]
fn solve_rejects_a_digit_twice_in_a_column_or_box() {
    let mut board = Board::from_singleline_str(&padded(&[7, 0, 0, 0, 0, 0, 0, 0, 0, 7])).unwrap();
    assert_eq!(board.solve(), Err(()));
    let mut board =
        Board::from_singleline_str(&padded(&[7, 0, 0, 0, 0, 0, 0, 0, 0, 0, 7])).unwrap();
    let before = cells(&board);
    assert_eq!(board.solve(), Err(()));
    assert_eq!(cells(&board), before);
}

#[test]
fn solve_reports_clues_that_agree_but_allow_no_grid() {
    // Row 0 lacks only the 9, which column 8 holds already.
    let mut board = Board::from_singleline_str(&padded(&[
        1, 2, 3, 4, 5, 6, 7, 8, 0, 0, 0, 0, 0, 0, 0, 0, 0, 9,
    ]))
    .unwrap();
    let before = cells(&board);
    assert!(board.is_consistent());
    assert_eq!(board.solve(), Err(()));
    assert_eq!(cells(&board), before);
}

#[test]
fn solve_fills_an_empty_board() {
    let mut board = Board::new();
    assert_eq!(board.solve(), Ok(()));
    assert_rules_hold(&board);
    let mut again = Board::new();
    assert_eq!(again.solve(), Ok(()));
    assert_eq!(cells(&board), cells(&again));
}

#[test]
fn solve_keeps_a_solved_board() {
    let mut board = Board::from_multiline_str(CLASSIC).unwrap();
    assert_eq!(board.solve(), Ok(()));
    let solved = cells(&board);
    assert_eq!(board.solve(), Ok(()));
    assert_eq!(cells(&board), solved);
}

#[test]
fn a_text_that_ends_before_the_last_cell_is_refused() {
    assert_eq!(
        Board::from_singleline_str("").err(),
        Some(ParseBoardError::TooFewEntries)
    );
    assert_eq!(
        Board::from_singleline_str("1 2 3").err(),
        Some(ParseBoardError::TooFewEntries)
    );
    assert_eq!(
        Board::from_multiline_str("1 _ 3").err(),
        Some(ParseBoardError::TooFewEntries)
    );
    let eighty = "1".repeat(80);
    assert_eq!(
        Board::from_singleline_str(&eighty).err(),
        Some(ParseBoardError::TooFewEntries)
    );
    assert_eq!(
        Board::from_multiline_str(&format!("{}   ", eighty)).err(),
        Some(ParseBoardError::TooFewEntries)
    );
    assert!(Board::from_singleline_str(&format!("{}1", eighty)).is_ok());
}

#[test]
fn a_text_of_81_entries_fills_every_cell() {
    let board = Board::from_singleline_str(&padded(&[1, 2, 3])).unwrap();
    assert_eq!(board.get_entry(0, 0), Some(1));
    assert_eq!(board.get_entry(0, 2), Some(3));
    assert_eq!(board.get_entry(0, 3), None);
    assert_eq!(board.get_entry(8, 8), None);
}

#[test]
fn a_text_that_goes_on_after_the_last_cell_is_refused() {
    let full = "1".repeat(81);
    assert!(Board::from_singleline_str(&full).is_ok());
    assert_eq!(
        Board::from_singleline_str(&format!("{}2", full)).err(),
        Some(ParseBoardError::TooManyEntries)
    );
    assert_eq!(
        Board::from_multiline_str(&format!("{} ", full)).err(),
        Some(ParseBoardError::TooManyEntries)
    );
    assert_eq!(
        Board::from_multiline_str(&format!("{}x", full)).err(),
        Some(ParseBoardError::TooManyEntries)
    );
}

#[test]
fn a_character_that_stands_for_nothing_is_refused() {
    assert_eq!(
        Board::from_singleline_str("1 2 x").err(),
        Some(ParseBoardError::InvalidCharacter('x'))
    );
    assert_eq!(
        Board::from_singleline_str("1 _ 3").err(),
        Some(ParseBoardError::InvalidCharacter('_'))
    );
    // The first character that stands for nothing is reported, also where
    // the text is too short besides.
    assert_eq!(
        Board::from_multiline_str("1 2 3 x y").err(),
        Some(ParseBoardError::InvalidCharacter('x'))
    );
    assert_eq!(
        Board::from_multiline_str("1 2\n3").err(),
        Some(ParseBoardError::InvalidCharacter('\n'))
    );
    assert_eq!(
        Board::from_multiline_str("1 0 3").err(),
        Some(ParseBoardError::InvalidCharacter('0'))
    );
}

#[test]
fn is_consistent_accepts_the_classic_puzzle() {
    let board = Board::from_multiline_str(CLASSIC).unwrap();
    assert!(board.is_consistent());
    assert!(Board::new().is_consistent());
}

#[test]
fn to_line_writes_every_cell_and_a_space() {
    let board = Board::from_singleline_str(&padded(&[5, 3, 0, 0, 7])).unwrap();
    let line = board.to_line();
    assert_eq!(line.len(), 162);
    assert!(line.starts_with("5 3 0 0 7 0 0 "));
    assert!(line.ends_with("0 0 "));
    assert_eq!(Board::new().to_line(), "0 ".repeat(81));
}

#[test]
fn to_string_writes_nine_lines() {
    let board = Board::from_multiline_str(CLASSIC).unwrap();
    let text = board.to_string();
    let lines: Vec<&str> = text.split('\n').collect();
    assert_eq!(lines.len(), 9);
    assert_eq!(lines[0], "5 3 0 0 7 0 0 0 0");
    assert_eq!(lines[1], "6 0 0 1 9 5 0 0 0");
    assert_eq!(lines[8], "0 0 0 0 8 0 0 7 9");
    assert!(!text.ends_with('\n'));
}

#[test]
fn to_line_can_be_read_back() {
    let board = Board::from_multiline_str(CLASSIC).unwrap();
    let again = Board::from_singleline_str(board.to_line().trim_end()).unwrap();
    assert!(board == again);
}

#[test]
fn boards_are_equal_when_their_cells_are() {
    let a = Board::from_multiline_str(CLASSIC).unwrap();
    let b = a.clone();
    let mut c = a.clone();
    assert!(a == b);
    assert_eq!(c.solve(), Ok(()));
    assert!(a != c);
    assert!(Board::new() == Board::from_singleline_str(&padded(&[])).unwrap());
}

#[test]
fn solve_writes_the_rows_that_the_matrix_finds() {
    let clues = Board::from_multiline_str(CLASSIC).unwrap();
    let mut matrix = Matrix::new(729, 324, 2916);
    clues.init_matrix(&mut matrix);
    let rows = matrix.solve().unwrap();
    assert_eq!(rows.len(), 81 - 30);
    let mut solved = clues.clone();
    assert_eq!(solved.solve(), Ok(()));
    for row in rows {
        let placement = Possibility::from_matrix_row(row);
        assert_eq!(clues.get_entry(placement.row, placement.column), None);
        assert_eq!(
            solved.get_entry(placement.row, placement.column),
            Some(placement.number)
        );
    }
}

#[test]
fn the_grid_for_an_empty_board_follows_the_order_of_the_search() {
    // The first column with the fewest entries is the rule of cell (0, 0),
    // and the topmost row of a column is the one that was added last: the
    // search starts with a 9 in the first cell.
    let mut board = Board::new();
    assert_eq!(board.solve(), Ok(()));
    assert_eq!(
        board.to_string(),
        "9 8 7 6 5 4 3 2 1\n\
         4 5 6 2 3 1 7 8 9\n\
         3 2 1 7 8 9 4 5 6\n\
         1 3 5 8 6 7 2 9 4\n\
         8 4 2 3 9 5 6 1 7\n\
         6 7 9 1 4 2 5 3 8\n\
         2 6 3 9 7 8 1 4 5\n\
         7 9 4 5 1 3 8 6 2\n\
         5 1 8 4 2 6 9 7 3"
    );
}
