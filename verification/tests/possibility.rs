use sudoku::board::{Constraint, Possibility};

#[test]
fn possibility_from_matrix_row_consistent_with_get_matrix_row() {
    for sudoku_row in 0..9 {
        for sudoku_column in 0..9 {
            for sudoku_number in 1..10 {
                let initial_possibility = Possibility::new(sudoku_row, sudoku_column, sudoku_number);
                let initial_matrix_row = initial_possibility.get_matrix_row();
                let final_possibility = Possibility::from_matrix_row(initial_matrix_row);
                let final_matrix_row = final_possibility.get_matrix_row();
                assert_eq!(initial_possibility, final_possibility);
                assert_eq!(initial_matrix_row, final_matrix_row);
            }
        }
    }
}

#[test]
fn possibility_get_matrix_row() {
    // (possibility, expected_matrix_row)
    let cases = vec![
        (Possibility::new(0, 0, 1), 0),
    ];
    for (possibility, expected_matrix_row) in cases {
        let actual_matrix_row = possibility.get_matrix_row();
        assert_eq!(expected_matrix_row, actual_matrix_row);
    }
}

#[test]
fn possibility_get_matrix_column_cell() {
    for sudoku_row in 0..9 {
        for sudoku_column in 0..9 {
            let first_possibility = Possibility::new(sudoku_row, sudoku_column, 1);
            let first_matrix_column = first_possibility.get_matrix_column(Constraint::Cell);
            for sudoku_number in 2..10 {
                let possibility = Possibility::new(sudoku_row, sudoku_column, sudoku_number);
                let matrix_column = possibility.get_matrix_column(Constraint::Cell);
                assert_eq!(first_matrix_column, matrix_column);
            }
        }
    }
}

#[test]
fn possibility_get_matrix_column_row() {
    for sudoku_row in 0..9 {
        for sudoku_number in 1..10 {
            let first_possibility = Possibility::new(sudoku_row, 0, sudoku_number);
            let first_matrix_column = first_possibility.get_matrix_column(Constraint::Row);
            for sudoku_column in 1..9 {
                let possibility = Possibility::new(sudoku_row, sudoku_column, sudoku_number);
                let matrix_column = possibility.get_matrix_column(Constraint::Row);
                assert_eq!(first_matrix_column, matrix_column);
            }
        }
    }
}

#[test]
fn possibility_get_matrix_column_column() {
    for sudoku_column in 0..9 {
        for sudoku_number in 1..10 {
            let first_possibility = Possibility::new(0, sudoku_column, sudoku_number);
            let first_matrix_column = first_possibility.get_matrix_column(Constraint::Column);
            for sudoku_row in 1..9 {
                let possibility = Possibility::new(sudoku_row, sudoku_column, sudoku_number);
                let matrix_column = possibility.get_matrix_column(Constraint::Column);
                assert_eq!(first_matrix_column, matrix_column);
            }
        }
    }
}

#[test]
fn possibility_get_matrix_column_box() {
    for sudoku_box_row in 0..3 {
        for sudoku_box_column in 0..3 {
            for sudoku_number in 1..10 {
                let first_possibility = Possibility::new(sudoku_box_row * 3, sudoku_box_column * 3, sudoku_number);
                let first_matrix_column = first_possibility.get_matrix_column(Constraint::Box);
                for sudoku_row in (sudoku_box_row * 3)..(sudoku_box_row * 3 + 3) {
                    for sudoku_column in (sudoku_box_column * 3)..(sudoku_box_column * 3 + 3) {
                        let possibility = Possibility::new(sudoku_row, sudoku_column, sudoku_number);
                        let matrix_column = possibility.get_matrix_column(Constraint::Box);
                        assert_eq!(first_matrix_column, matrix_column,
                            "Matrix column {} for possibility {:?} did not match \
                            matrix column {} for possibility {:?}",
                            first_matrix_column, first_possibility,
                            matrix_column, possibility);
                    }
                }
            }
        }
    }
}

#[test]
fn matrix_rows_and_columns_follow_their_formulas() {
    let placement = Possibility::new(2, 3, 5);
    assert_eq!(placement.get_matrix_row(), 2 * 81 + 3 * 9 + 4);
    assert_eq!(placement.get_matrix_column(Constraint::Cell), 21);
    assert_eq!(placement.get_matrix_column(Constraint::Row), 103);
    assert_eq!(placement.get_matrix_column(Constraint::Column), 193);
    assert_eq!(placement.get_matrix_column(Constraint::Box), 256);
    let last = Possibility::new(8, 8, 9);
    assert_eq!(last.get_matrix_row(), 728);
    assert_eq!(last.get_matrix_column(Constraint::Cell), 80);
    assert_eq!(last.get_matrix_column(Constraint::Row), 161);
    assert_eq!(last.get_matrix_column(Constraint::Column), 242);
    assert_eq!(last.get_matrix_column(Constraint::Box), 323);
}

#[test]
fn from_matrix_row_takes_a_row_apart() {
    assert_eq!(Possibility::from_matrix_row(0), Possibility::new(0, 0, 1));
    assert_eq!(Possibility::from_matrix_row(193), Possibility::new(2, 3, 5));
    assert_eq!(Possibility::from_matrix_row(728), Possibility::new(8, 8, 9));
}

#[test]
fn every_matrix_row_comes_back_from_its_placement() {
    for matrix_row in 0..729 {
        assert_eq!(Possibility::from_matrix_row(matrix_row).get_matrix_row(), matrix_row);
    }
}
