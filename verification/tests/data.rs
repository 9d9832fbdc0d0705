use arrayvec::ArrayVec;
use sudoku_rs::data::{
    check_subset, column_indices, row_indices, subsquare_indices, Dataset, Subset,
    SubsetCheckedState, SudokuData, SudokuDataTree,
};

fn striped() -> Dataset {
    Dataset::from([
        None, Some(8), None, Some(1), None, None, None, Some(7), None,
        Some(1), None, None, Some(4), None, None, None, None, None,
        None, None, None, None, Some(6), None, None, None, Some(9),
        None, Some(8), None, Some(1), None, None, None, Some(7), None,
        Some(1), None, None, Some(4), None, None, None, None, None,
        None, None, None, None, Some(6), None, None, None, Some(9),
        None, Some(8), None, Some(1), None, None, None, Some(7), None,
        Some(1), None, None, Some(4), None, None, None, None, None,
        None, None, None, None, Some(6), None, None, None, Some(9)
        ])
}

#[test]
fn data_test_from_data() {
    let data = striped();

    let sudoku_data = SudokuData::new(data);

    assert_eq!(
        sudoku_data.row(3),
        Subset::from([None, Some(8), None, Some(1), None, None, None, Some(7), None])
    );
}

#[test]
fn data_test_from_hashmap() {
    let data_tree = SudokuDataTree::from([
        (3, 7),
        (8, 1),
        (9, 2),
        (12, 3),
        (28, 5),
        (29, 7),
        (80, 9)
    ]);

    let sudoku_data = SudokuData::from_map(data_tree);
    assert_eq!(sudoku_data.row(1),
        Subset::from([Some(2), None, None, Some(3), None, None, None, None, None])
    );
}

#[test]
fn data__test_from_data() {
    let data = striped();

    let sudoku_data = SudokuData::new(data);

    assert_eq!(
        sudoku_data.row(3),
        Subset::from([None, Some(8), None, Some(1), None, None, None, Some(7), None])
    );
}

#[test]
fn data__test_from_hashmap() {
    let data_tree = SudokuDataTree::from([
        (3, 7),
        (8, 1),
        (9, 2),
        (12, 3),
        (28, 5),
        (29, 7),
        (80, 9)
    ]);

    let sudoku_data = SudokuData::from_map(data_tree);
    assert_eq!(sudoku_data.row(1),
        Subset::from([Some(2), None, None, Some(3), None, None, None, None, None])
    );
}

#[test]
fn test_row_indices() {
    let row_idxs = row_indices(4);
    assert_eq!(row_idxs, ArrayVec::from([36, 37, 38, 39, 40, 41, 42, 43, 44]));
}

#[test]
fn test_column_indices() {
    let col_idxs = column_indices(3);
    assert_eq!(col_idxs, ArrayVec::from([3, 12, 21, 30, 39, 48, 57, 66, 75]));
}

#[test]
fn test_subsquare_indices() {
    let subsquare_idxs = subsquare_indices(2);
    assert_eq!(subsquare_idxs, ArrayVec::from([6, 7, 8, 15, 16, 17, 24, 25, 26]));
}

#[test]
fn check_subset_complete() {
    let subset = Subset::from([Some(4),Some(6),Some(8),Some(2),Some(3),Some(1),Some(9),Some(7),Some(5)]);
    let state = check_subset(subset);
    assert_eq!(state, SubsetCheckedState::Complete);
    assert!(state.is_complete());
}

#[test]
fn check_subset_error() {
    let subset = Subset::from([Some(1),Some(2),Some(3),Some(2),Some(5),Some(6),Some(7),Some(8),Some(9)]);
    let state = check_subset(subset);
    assert!(state.is_error());
    match state {
       SubsetCheckedState::Error(_) => {},
        _ => {panic!("Expected Error");}
   }
}

#[test]
fn check_subset_valid_when_cells_are_empty() {
    let subset = Subset::from([Some(1), None, Some(3), None, None, Some(6), None, None, Some(9)]);
    let state = check_subset(subset);
    assert_eq!(state, SubsetCheckedState::Valid);
    assert!(!state.is_error());
    assert!(!state.is_complete());
}

#[test]
fn check_subset_fault_carries_no_cell() {
    let subset = Subset::from([Some(5), None, None, None, None, None, None, None, Some(5)]);
    assert_eq!(check_subset(subset), SubsetCheckedState::Error(None));
}

#[test]
fn check_subset_of_fewer_than_nine_entries() {
    let mut subset = Subset::new();
    assert_eq!(check_subset(subset.clone()), SubsetCheckedState::Valid);
    subset.push(Some(3));
    subset.push(None);
    subset.push(Some(4));
    assert_eq!(check_subset(subset.clone()), SubsetCheckedState::Valid);
    subset.push(Some(3));
    assert_eq!(check_subset(subset), SubsetCheckedState::Error(None));
}

#[test]
fn columns_and_subsquares_pick_their_cells() {
    let sudoku_data = SudokuData::new(striped());
    assert_eq!(
        sudoku_data.column(3),
        Subset::from([Some(1), Some(4), None, Some(1), Some(4), None, Some(1), Some(4), None])
    );
    assert_eq!(
        sudoku_data.subsquare(2),
        Subset::from([None, Some(7), None, None, None, None, None, None, Some(9)])
    );
    assert_eq!(
        sudoku_data.subsquare(4),
        Subset::from([Some(1), None, None, Some(4), None, None, None, Some(6), None])
    );
}

#[test]
fn set_writes_one_cell() {
    let mut sudoku_data = SudokuData::new([None; 81]);
    sudoku_data.set(40, 5);
    sudoku_data.set(44, 2);
    assert_eq!(
        sudoku_data.row(4),
        Subset::from([None, None, None, None, Some(5), None, None, None, Some(2)])
    );
    assert_eq!(
        sudoku_data.column(4),
        Subset::from([None, None, None, None, Some(5), None, None, None, None])
    );
}

#[test]
fn check_sums_up_rows_columns_and_subsquares() {
    let empty = SudokuData::new([None; 81]);
    assert_eq!(
        empty.check(),
        vec![SubsetCheckedState::Valid, SubsetCheckedState::Valid, SubsetCheckedState::Valid]
    );
    // the stripes repeat a value down each column, but never in a row or subsquare
    let striped = SudokuData::new(striped());
    assert_eq!(
        striped.check(),
        vec![
            SubsetCheckedState::Valid,
            SubsetCheckedState::Error(None),
            SubsetCheckedState::Valid
        ]
    );
}

#[test]
fn compute_possibles_counts_the_empty_cells() {
    let sudoku_data = SudokuData::new(striped());
    let possibles = sudoku_data.compute_possibles();
    assert_eq!(possibles.len(), 81 - 21);
}

#[test]
fn check_subset_reads_any_run_of_entries() {
    assert_eq!(check_subset(vec![]), SubsetCheckedState::Valid);
    assert_eq!(check_subset(vec![None, None]), SubsetCheckedState::Valid);
    assert_eq!(check_subset(vec![Some(7), Some(7)]), SubsetCheckedState::Error(None));
    assert_eq!(
        check_subset(vec![Some(9), Some(8), Some(7), Some(6), Some(5), Some(4), Some(3), Some(2), Some(1)]),
        SubsetCheckedState::Complete
    );
    // nine different values make a unit complete, whatever they are
    assert_eq!(
        check_subset(vec![Some(0), Some(10), Some(20), Some(30), Some(40), Some(50), Some(60), Some(70), Some(80)]),
        SubsetCheckedState::Complete
    );
    // a fault is found before completeness is asked for
    assert_eq!(
        check_subset(vec![Some(1), Some(2), Some(3), Some(4), Some(5), Some(6), Some(7), Some(8), Some(9), Some(9)]),
        SubsetCheckedState::Error(None)
    );
    assert_eq!(
        check_subset(vec![Some(1), Some(2), Some(3), Some(4), Some(5), Some(6), Some(7), Some(8), Some(9), None]),
        SubsetCheckedState::Complete
    );
}

#[test]
fn from_map_of_nothing_is_the_empty_grid() {
    let sudoku_data = SudokuData::from_map(SudokuDataTree::new());
    for i in 0..9 {
        assert_eq!(sudoku_data.row(i), Subset::from([None; 9]));
    }
    let mut tree = SudokuDataTree::new();
    tree.insert(0, 1);
    tree.insert(80, 9);
    let sudoku_data = SudokuData::from_map(tree);
    assert_eq!(sudoku_data.subsquare(0), Subset::from([Some(1), None, None, None, None, None, None, None, None]));
    assert_eq!(sudoku_data.column(8), Subset::from([None, None, None, None, None, None, None, None, Some(9)]));
}

#[test]
fn around_index_lists_the_twenty_peers() {
    let sudoku_data = SudokuData::new([None; 81]);
    assert_eq!(
        sudoku_data.around_index(40),
        vec![36, 37, 38, 39, 41, 42, 43, 44, 4, 13, 22, 31, 49, 58, 67, 76, 30, 32, 48, 50]
    );
    for index in 0..81 {
        assert_eq!(sudoku_data.around_index(index), sudoku_rs::Indices::around(index));
    }
}
