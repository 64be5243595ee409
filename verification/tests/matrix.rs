use sudoku::links::{Node, NodeKind};
use sudoku::Matrix;

fn knuth_example() -> Matrix {
    let rows: Vec<Vec<usize>> = vec![
        vec![0, 3, 6],
        vec![0, 3],
        vec![3, 4, 6],
        vec![2, 4, 5],
        vec![1, 2, 5, 6],
        vec![1, 6],
    ];
    let mut matrix = Matrix::new(6, 7, 17);
    for (row, columns) in rows.iter().enumerate() {
        for column in columns {
            matrix.set_entry(row, *column);
        }
    }
    matrix
}

#[test]
fn new_matrix() {
    let mut matrix = Matrix::new(10, 10, 10);

    matrix.set_entry(1, 1);
    matrix.set_entry(0, 0);
    matrix.set_entry(0, 1);
    println!("{}", matrix.to_string());
}

#[test]
fn solve_finds_the_exact_cover() {
    let mut matrix = knuth_example();
    let mut rows = matrix.solve().unwrap();
    rows.sort();
    assert_eq!(rows, vec![1, 3, 5]);
}

#[test]
fn solve_reports_when_there_is_no_cover() {
    let mut matrix = Matrix::new(2, 3, 4);
    matrix.set_entry(0, 0);
    matrix.set_entry(0, 1);
    matrix.set_entry(1, 1);
    matrix.set_entry(1, 2);
    assert_eq!(matrix.solve(), Err(()));
}

#[test]
fn solve_of_a_matrix_with_an_empty_column_fails() {
    let mut matrix = Matrix::new(1, 2, 1);
    matrix.set_entry(0, 0);
    assert_eq!(matrix.solve(), Err(()));
}

#[test]
fn solve_after_a_cover_leaves_the_covered_column_alone() {
    let mut matrix = Matrix::new(3, 3, 5);
    matrix.set_entry(0, 0);
    matrix.set_entry(0, 1);
    matrix.set_entry(1, 1);
    matrix.set_entry(2, 2);
    matrix.set_entry(1, 0);
    // Covering column 0 removes rows 0 and 1; column 1 is then empty.
    matrix.cover_column(0);
    assert_eq!(matrix.solve(), Err(()));
    matrix.uncover_column(0);
    // Covering column 2 removes row 2.  Rows 0 and 1 each cover columns 0 and
    // 1; row 1 is the topmost entry of column 0, so it is tried first.
    matrix.cover_column(2);
    assert_eq!(matrix.solve(), Ok(vec![1]));
}

#[test]
fn choose_column_takes_the_first_of_the_smallest() {
    let matrix = knuth_example();
    // Column sizes are 2, 2, 2, 3, 2, 2, 4: the first smallest is column 0.
    assert_eq!(matrix.choose_column(), (1, 2));
    let mut matrix = Matrix::new(3, 3, 4);
    matrix.set_entry(0, 0);
    matrix.set_entry(1, 0);
    matrix.set_entry(0, 1);
    matrix.set_entry(2, 2);
    // Sizes 2, 1, 1: columns 1 and 2 tie, and column 1 comes first.
    assert_eq!(matrix.choose_column(), (2, 1));
}

#[test]
fn uncovers_in_reverse_order_restore_the_matrix() {
    let mut matrix = knuth_example();
    let before = matrix.choose_column();
    let first = matrix.solve();
    // A fresh copy: cover columns 0, 3 and 5, one after another.  With the
    // cover of column 0, column 3 loses rows 0 and 1 and keeps row 2 alone.
    let mut matrix = knuth_example();
    let at_rest = matrix.clone();
    matrix.cover_column(0);
    let after_one = matrix.clone();
    assert!(matrix != at_rest);
    assert_eq!(matrix.choose_column(), (4, 1));
    matrix.cover_column(3);
    let after_two = matrix.clone();
    matrix.cover_column(5);
    assert!(matrix != after_two);
    matrix.uncover_column(5);
    assert!(matrix == after_two);
    matrix.uncover_column(3);
    assert!(matrix == after_one);
    matrix.uncover_column(0);
    assert!(matrix == at_rest);
    assert_eq!(matrix.choose_column(), before);
    assert_eq!(matrix.solve(), first);
}

#[test]
fn a_failed_search_leaves_the_matrix_as_it_was() {
    // Every row has two of the three columns: no rows cover each column once.
    let mut matrix = Matrix::new(4, 3, 7);
    matrix.set_entry(0, 0);
    matrix.set_entry(0, 1);
    matrix.set_entry(1, 1);
    matrix.set_entry(1, 2);
    matrix.set_entry(2, 0);
    matrix.set_entry(2, 2);
    let before = matrix.clone();
    assert_eq!(matrix.solve(), Err(()));
    assert!(matrix == before);
    assert_eq!(matrix.solve(), Err(()));
    // The matrix is at rest again and takes a new entry: row 3 has column 1 alone.
    matrix.set_entry(3, 1);
    let mut rows = matrix.solve().unwrap();
    rows.sort();
    assert_eq!(rows, vec![2, 3]);
}

#[test]
fn clear_empties_the_matrix() {
    let mut matrix = knuth_example();
    matrix.cover_column(2);
    matrix.clear();
    assert_eq!(matrix.choose_column(), (1, 0));
    assert_eq!(matrix.solve(), Err(()));
    matrix.set_entry(0, 0);
    matrix.set_entry(0, 1);
    matrix.set_entry(0, 2);
    matrix.set_entry(0, 3);
    matrix.set_entry(0, 4);
    matrix.set_entry(0, 5);
    matrix.set_entry(0, 6);
    assert_eq!(matrix.solve(), Ok(vec![0]));
}

#[test]
fn solve_returns_the_rows_in_the_order_of_the_search() {
    // Columns 0 and 1 have one entry each; column 0 comes first, so row 1 is
    // chosen before row 0.
    let mut matrix = Matrix::new(2, 2, 2);
    matrix.set_entry(0, 1);
    matrix.set_entry(1, 0);
    assert_eq!(matrix.solve(), Ok(vec![1, 0]));
}

#[test]
fn covering_every_column_of_a_row_and_back_restores_the_matrix() {
    let mut matrix = knuth_example();
    let at_rest = matrix.clone();
    // Row 4 has its ones in columns 1, 2, 5 and 6.
    for column in [1, 2, 5, 6] {
        matrix.cover_column(column);
    }
    // Of columns 0, 3 and 4 only row 1 is left, which has no one in column 4.
    assert_eq!(matrix.choose_column(), (5, 0));
    for column in [6, 5, 2, 1] {
        matrix.uncover_column(column);
    }
    assert!(matrix == at_rest);
}

#[test]
fn a_cleared_matrix_equals_a_new_one() {
    let mut matrix = knuth_example();
    matrix.cover_column(4);
    matrix.clear();
    assert!(matrix == Matrix::new(6, 7, 0));
    assert!(matrix != Matrix::new(6, 8, 0));
}

fn header(column: usize, size: usize, up: usize, down: usize, left: usize, right: usize) -> Node {
    Node {
        kind: NodeKind::Header,
        column_size: size,
        column_index: column,
        row_index: usize::MAX,
        up,
        down,
        left,
        right,
    }
}

#[test]
fn to_string_shows_the_columns_and_the_rows() {
    let mut matrix = Matrix::new(2, 2, 3);
    assert_eq!(
        matrix.to_string(),
        format!(
            "col {:?}\ncol {:?}\n",
            header(0, 0, 1, 1, 0, 2),
            header(1, 0, 2, 2, 1, 0)
        )
    );
    matrix.set_entry(1, 1);
    matrix.set_entry(1, 0);
    matrix.set_entry(0, 1);
    assert_eq!(
        matrix.to_string(),
        format!(
            "col {:?}\ncol {:?}\n\
             row 0: [ (i=5;c=1;l=5;r=5;u=2;d=3) ]\n\
             row 1: [ (i=3;c=1;l=4;r=4;u=5;d=2) (i=4;c=0;l=3;r=3;u=1;d=1) ]\n",
            header(0, 1, 4, 4, 0, 2),
            header(1, 2, 3, 5, 1, 0)
        )
    );
    // Covering column 0 takes the entry of row 1 off column 1; that entry
    // keeps its links.
    matrix.cover_column(0);
    assert_eq!(
        matrix.to_string(),
        format!(
            "col {:?}\n\
             row 0: [ (i=5;c=1;l=5;r=5;u=2;d=2) ]\n\
             row 1: [ (i=3;c=1;l=4;r=4;u=5;d=2) (i=4;c=0;l=3;r=3;u=1;d=1) ]\n",
            header(1, 1, 5, 5, 0, 0)
        )
    );
}

#[test]
fn to_string_writes_numbers_of_any_length() {
    let mut matrix = Matrix::new(120, 1, 1);
    matrix.set_entry(107, 0);
    let text = matrix.to_string();
    assert!(text.ends_with("row 107: [ (i=2;c=0;l=2;r=2;u=1;d=1) ]\n"));
    assert!(text.contains(&format!("row_index: {},", usize::MAX)));
}

#[test]
fn a_second_entry_at_one_place_is_a_second_node() {
    let mut once = Matrix::new(1, 2, 2);
    once.set_entry(0, 1);
    let mut twice = once.clone();
    twice.set_entry(0, 1);
    assert!(once != twice);
    // The column's size is one more, the other column is as it was, the
    // new node is topmost in the column and to the right of the row's front.
    assert_eq!(
        twice.to_string(),
        format!(
            "col {:?}\ncol {:?}\n\
             row 0: [ (i=3;c=1;l=4;r=4;u=4;d=2) (i=4;c=1;l=3;r=3;u=2;d=3) ]\n",
            header(0, 0, 1, 1, 0, 2),
            header(1, 2, 3, 4, 1, 0)
        )
    );
    twice.clear();
    assert!(twice == Matrix::new(1, 2, 0));
}
