use sudoku_rs::data::{SubsetCheckedState, SudokuData};
use sudoku_rs::{Data, Indices, Possibles, Solver, Status};

fn grid(text: &str) -> Data {
    let mut data: Data = [None; 81];
    for (i, ch) in text.chars().filter(|ch| !ch.is_whitespace()).enumerate() {
        if let Some(d) = ch.to_digit(10) {
            if d != 0 {
                data[i] = Some(d as u8);
            }
        }
    }
    data
}

fn easy() -> Data {
    grid(
        "53..7....
         6..195...
         .98....6.
         8...6...3
         4..8.3..1
         7...2...6
         .6....28.
         ...419..5
         ....8..79",
    )
}

fn easy_solved() -> Data {
    grid(
        "534678912
         672195348
         198342567
         859761423
         426853791
         713924856
         961537284
         287419635
         345286179",
    )
}

fn hard() -> Data {
    grid(
        "8........
         ..36.....
         .7..9.2..
         .5...7...
         ....457..
         ...1...3.
         ..1....68
         ..85...1.
         .9....4..",
    )
}

fn one_gap_in_row() -> Data {
    grid("12345679.")
}

fn count_empty(data: &Data) -> usize {
    data.iter().filter(|c| c.is_none()).count()
}

/// No value stands twice in a row, a column or a subsquare.
fn assert_consistent(data: &Data) {
    for c in 0..81usize {
        if let Some(v) = data[c] {
            for p in Indices::around(c) {
                assert_ne!(data[p], Some(v), "cells {} and {} both hold {}", c, p, v);
            }
        }
    }
}

#[test]
fn new_keeps_the_grid_twice() {
    let solver = Solver::new(easy());
    assert_eq!(solver.data(), &easy());
    assert_eq!(solver.initial_data(), &easy());
}

#[test]
fn single_gap_in_a_row_is_filled_in_the_first_pass() {
    let mut solver = Solver::new(one_gap_in_row());
    solver.remove_single_possibles();
    assert_eq!(solver.data()[8], Some(8));
    assert_eq!(count_empty(solver.data()), 72);
    assert_eq!(solver.initial_data()[8], None);
}

#[test]
fn hidden_single_is_placed_by_the_second_rule() {
    let mut data: Data = [None; 81];
    for (c, v) in [(12, 5), (24, 5), (28, 5), (56, 5), (3, 1), (4, 2), (5, 3), (6, 4), (27, 6), (36, 7)] {
        data[c] = Some(v);
    }
    let mut solver = Solver::new(data);
    solver.remove_single_possibles();
    assert_eq!(solver.data()[0], None);
    solver.remove_single_values();
    assert_eq!(solver.data()[0], Some(5));
    assert_consistent(solver.data());
}

#[test]
fn update_places_a_value_and_strikes_it_from_the_peers() {
    let mut solver = Solver::new([None; 81]);
    solver.update(40, 5);
    assert_eq!(solver.data()[40], Some(5));
    assert_eq!(count_empty(solver.data()), 80);
    // what is left of the candidates shows in a fresh build of the same grid
    let p = Possibles::from_data(*solver.data());
    for peer in Indices::around(40) {
        assert!(!p.by_cells()[&peer].contains(&5));
    }
    assert!(p.by_cells()[&0].contains(&5));
}

#[test]
fn update_on_a_filled_cell_changes_nothing() {
    let mut solver = Solver::new(easy());
    solver.update(0, 9);
    assert_eq!(solver.data(), &easy());
    solver.update(2, 4);
    let after = *solver.data();
    assert_eq!(after[2], Some(4));
    solver.update(2, 4);
    solver.update(2, 1);
    assert_eq!(solver.data(), &after);
}

#[test]
fn easy_puzzle_is_solved() {
    let mut solver = Solver::new(easy());
    let status = solver.solve();
    assert_eq!(status, Status::Solved);
    assert_eq!(solver.data(), &easy_solved());
    assert_eq!(solver.initial_data(), &easy());
    assert_eq!(
        SudokuData::new(*solver.data()).check(),
        vec![
            SubsetCheckedState::Complete,
            SubsetCheckedState::Complete,
            SubsetCheckedState::Complete
        ]
    );
}

#[test]
fn solved_puzzle_stays_as_it_is() {
    let mut solver = Solver::new(easy());
    solver.solve();
    let solved = *solver.data();
    assert_eq!(solver.solve(), Status::Solved);
    assert_eq!(solver.data(), &solved);
    solver.remove_single_possibles();
    solver.remove_single_values();
    assert_eq!(solver.data(), &solved);

    let mut full = Solver::new(easy_solved());
    assert_eq!(full.solve(), Status::Solved);
    assert_eq!(full.data(), &easy_solved());
}

#[test]
fn empty_grid_is_stuck_at_once() {
    let mut solver = Solver::new([None; 81]);
    assert_eq!(solver.solve(), Status::Stuck);
    assert_eq!(count_empty(solver.data()), 81);
}

#[test]
fn hard_puzzle_ends_stuck_without_a_guess() {
    let mut solver = Solver::new(hard());
    let before = count_empty(solver.data());
    let status = solver.solve();
    assert_eq!(status, Status::Stuck);
    let left = count_empty(solver.data());
    assert!(left > 0);
    assert!(left <= before);
    assert_consistent(solver.data());
    let start = hard();
    for c in 0..81usize {
        if start[c].is_some() {
            assert_eq!(solver.data()[c], start[c]);
        }
    }
}

#[test]
fn every_placed_value_fits_its_row_column_and_subsquare() {
    let mut solver = Solver::new(easy());
    let mut left = count_empty(solver.data());
    loop {
        solver.remove_single_possibles();
        assert_consistent(solver.data());
        let after_first = count_empty(solver.data());
        assert!(after_first <= left);
        solver.remove_single_values();
        assert_consistent(solver.data());
        let after_second = count_empty(solver.data());
        assert!(after_second <= after_first);
        if after_second == left || after_second == 0 {
            break;
        }
        left = after_second;
    }
    // every value agrees with the one solution of the puzzle
    let solution = easy_solved();
    for c in 0..81usize {
        if solver.data()[c].is_some() {
            assert_eq!(solver.data()[c], solution[c]);
        }
    }
}

#[test]
fn a_run_ends_with_the_first_pass_that_fills_no_cell() {
    // the last pass fills nothing but strikes candidates, and so leaves work
    // that only a further run takes up
    let mut solver = Solver::new(grid(
        "..46.891.
         .7..9..48
         1......6.
         .5976..23
         ...8.....
         ...9.4..6
         ...5.....
         ...419.3.
         .452.61..",
    ));
    assert_eq!(solver.solve(), Status::Stuck);
    let stuck = *solver.data();
    solver.solve();
    assert_ne!(solver.data(), &stuck);
    assert!(count_empty(solver.data()) < count_empty(&stuck));
    assert_consistent(solver.data());
}

/// 1 to 7 in the first cells of row 0, and a 9 in each of the last two
/// columns: both cells left in row 0 have 8 as their only candidate.
fn two_cells_for_one_value() -> Data {
    let mut data = grid("1234567..");
    data[34] = Some(9);
    data[71] = Some(9);
    data
}

#[test]
fn a_single_struck_during_the_pass_is_not_placed() {
    let data = two_cells_for_one_value();
    assert_consistent(&data);
    let p = Possibles::from_data(data);
    assert_eq!(p.find_singles(), vec![(7, 8), (8, 8)]);
    let mut solver = Solver::new(data);
    let placed = solver.remove_single_possibles();
    assert_eq!(placed, vec![(7, 8)]);
    assert_eq!(solver.data()[7], Some(8));
    assert_eq!(solver.data()[8], None);
    assert_eq!(solver.possibles().listed_values(8), Vec::<u8>::new());
    assert_consistent(solver.data());
}

#[test]
fn a_run_never_puts_a_value_twice_into_a_unit() {
    let mut solver = Solver::new(two_cells_for_one_value());
    assert_eq!(solver.solve(), Status::Stuck);
    assert!(!(solver.data()[7] == Some(8) && solver.data()[8] == Some(8)));
    assert_eq!(solver.data()[8], None);
    assert_consistent(solver.data());
}

#[test]
fn a_hidden_single_struck_during_the_pass_is_not_placed() {
    // 5 has one place left in row 0 (cell 0) and one in row 1 (cell 10), and
    // the two cells lie in one subsquare
    let data = grid(
        ".12346789
         3.4789126",
    );
    assert_consistent(&data);
    let p = Possibles::from_data(data);
    let found = p.find_single_values();
    assert!(found.contains(&(0, 5)));
    assert!(found.contains(&(10, 5)));
    let mut solver = Solver::new(data);
    let placed = solver.remove_single_values();
    assert_eq!(placed, vec![(0, 5)]);
    assert_eq!(solver.data()[0], Some(5));
    assert_eq!(solver.data()[10], None);
    assert_consistent(solver.data());
}

#[test]
fn step_tells_what_it_placed_and_whether_the_run_goes_on() {
    let mut solver = Solver::new(one_gap_in_row());
    let report = solver.step();
    assert_eq!(report.placed, vec![(8, 8)]);
    assert!(report.more);
    let report = solver.step();
    assert_eq!(report.placed, vec![]);
    assert!(!report.more);

    let mut by_steps = Solver::new(easy());
    let mut placed = 0;
    loop {
        let report = by_steps.step();
        for (c, v) in report.placed.iter() {
            assert_eq!(easy_solved()[*c], Some(*v));
        }
        placed += report.placed.len();
        if !report.more {
            break;
        }
    }
    assert_eq!(placed, count_empty(&easy()));
    let mut at_once = Solver::new(easy());
    at_once.solve();
    assert_eq!(by_steps.data(), at_once.data());
}

#[test]
fn overlays_leave_the_grid_alone() {
    let mut solver = Solver::new(grid("..1234568"));
    assert!(solver.possibles().listed_values(9).contains(&7));
    solver.remove_overlays();
    assert_eq!(solver.data(), &grid("..1234568"));
    assert_eq!(solver.possibles().listed_values(0), vec![7, 9]);
    assert_eq!(solver.possibles().listed_values(9), vec![2, 3, 4, 5, 6, 8]);
    assert_eq!(solver.possibles().len(), 74);
}

#[test]
fn a_clone_goes_its_own_way() {
    let solver = Solver::new(easy());
    let mut copy = solver.clone();
    assert_eq!(copy.solve(), Status::Solved);
    assert_eq!(solver.data(), &easy());
    assert_eq!(copy.data(), &easy_solved());
    assert_eq!(copy.initial_data(), &easy());
}

#[test]
fn clashing_givens_are_taken_as_they_are() {
    let mut data: Data = [None; 81];
    data[0] = Some(4);
    data[1] = Some(4);
    let mut solver = Solver::new(data);
    assert_eq!(solver.solve(), Status::Stuck);
    assert_eq!(solver.data()[0], Some(4));
    assert_eq!(solver.data()[1], Some(4));
}
