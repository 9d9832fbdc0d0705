use sudoku_rs::{Data, Possibles, Solver};

fn one_gap_in_row() -> Data {
    let mut data: Data = [None; 81];
    for (i, v) in [1, 2, 3, 4, 5, 6, 7, 9].iter().enumerate() {
        data[i] = Some(*v);
    }
    data
}

#[test]
fn cells_are_listed_in_the_order_of_the_grid() {
    let p = Possibles::from_data(one_gap_in_row());
    let cells = p.listed_cells();
    assert_eq!(cells, (8..81).collect::<Vec<usize>>());
    let mut p = p;
    p.remove(&40);
    p.remove(&8);
    let cells = p.listed_cells();
    assert_eq!(cells.len(), 71);
    assert_eq!(&cells[..3], &[9, 10, 11]);
    assert!(!cells.contains(&40));
    assert!(Possibles::from_data([Some(1); 81]).listed_cells().is_empty());
}

#[test]
fn values_of_a_cell_are_listed_smallest_first() {
    let mut p = Possibles::from_data(one_gap_in_row());
    assert_eq!(p.listed_values(8), vec![8]);
    assert_eq!(p.listed_values(9), vec![4, 5, 6, 7, 8, 9]);
    assert_eq!(p.listed_values(80), vec![1, 2, 3, 4, 5, 6, 7, 8, 9]);
    assert_eq!(p.listed_values(0), Vec::<u8>::new());
    assert_eq!(p.listed_values(81), Vec::<u8>::new());
    p.update(&9, &6);
    assert_eq!(p.listed_values(9), vec![4, 5, 7, 8, 9]);
}

#[test]
fn cells_of_a_value_are_listed_in_the_order_of_the_grid() {
    let p = Possibles::from_data(one_gap_in_row());
    let eights = p.listed_cells_of(8);
    assert_eq!(eights, (8..81).collect::<Vec<usize>>());
    let ones = p.listed_cells_of(1);
    // 1 stands in cell 0: it is gone from row 0, column 0 and subsquare 0
    assert_eq!(&ones[..4], &[12, 13, 14, 15]);
    assert_eq!(ones.len(), 73 - 1 - 6 - 6);
    assert_eq!(p.listed_cells_of(0), Vec::<usize>::new());
    assert_eq!(p.listed_cells_of(10), Vec::<usize>::new());
}

#[test]
fn solver_shows_its_candidates() {
    let mut solver = Solver::new(one_gap_in_row());
    assert_eq!(solver.possibles().len(), 73);
    assert_eq!(solver.possibles().listed_values(8), vec![8]);
    solver.remove_single_possibles();
    assert_eq!(solver.possibles().len(), 72);
    assert_eq!(solver.possibles().listed_values(8), Vec::<u8>::new());
    assert_eq!(solver.possibles().listed_values(17), vec![1, 2, 3, 4, 5, 6]);
}
