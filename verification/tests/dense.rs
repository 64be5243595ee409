use sudoku::coords::{DenseColumn, DenseRow};
use sudoku::{Board, DLXSolver, Solve};

#[test]
fn a_new_dense_matrix_has_the_links_of_the_full_matrix() {
    let solver = DLXSolver::new();
    for row in [0usize, 8, 9, 80, 81, 364, 728] {
        let links = solver.row_links(row);
        for family in 0..4 {
            let column = DenseColumn::new(family);
            assert_eq!(links[family].up, DenseRow::new(row).natural_up(&column));
            assert_eq!(links[family].down, DenseRow::new(row).natural_down(&column));
            assert_eq!(links[family].left, column.natural_left());
            assert_eq!(links[family].right, column.natural_right());
        }
    }
    let links = solver.row_links(0);
    assert_eq!(links[0].up, DenseRow::new(8));
    assert_eq!(links[3].down, DenseRow::new(9));
}

#[test]
fn the_dense_matrix_solves_nothing() {
    let mut solver = DLXSolver::new();
    let text = format!("5 3{}", " 0".repeat(79));
    let mut board = Board::from_singleline_str(&text).unwrap();
    assert_eq!(solver.solve(&mut board), Err(()));
    assert_eq!(board.get_entry(0, 0), Some(5));
    assert_eq!(board.get_entry(0, 2), None);
}
