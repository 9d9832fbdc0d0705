use sudoku_rs::Indices;

#[test]
fn row_lists_nine_cells_left_to_right() {
    assert_eq!(Indices::row(4), vec![36, 37, 38, 39, 40, 41, 42, 43, 44]);
}

#[test]
fn column_lists_nine_cells_top_to_bottom() {
    assert_eq!(Indices::column(3), vec![3, 12, 21, 30, 39, 48, 57, 66, 75]);
}

#[test]
fn subsquare_lists_nine_cells_row_by_row() {
    assert_eq!(Indices::subsquare(2), vec![6, 7, 8, 15, 16, 17, 24, 25, 26]);
    assert_eq!(Indices::subsquare(4), vec![30, 31, 32, 39, 40, 41, 48, 49, 50]);
}

#[test]
fn around_lists_the_twenty_peers_once_each() {
    assert_eq!(
        Indices::around(40),
        vec![36, 37, 38, 39, 41, 42, 43, 44, 4, 13, 22, 31, 49, 58, 67, 76, 30, 32, 48, 50]
    );
    assert_eq!(
        Indices::around(0),
        vec![1, 2, 3, 4, 5, 6, 7, 8, 9, 18, 27, 36, 45, 54, 63, 72, 10, 11, 19, 20]
    );
    assert_eq!(
        Indices::around(80),
        vec![72, 73, 74, 75, 76, 77, 78, 79, 8, 17, 26, 35, 44, 53, 62, 71, 60, 61, 69, 70]
    );
}

#[test]
fn position_of_a_cell() {
    let p = Indices::position_from_index(50);
    assert_eq!((p.row, p.column, p.subsquare), (5, 5, 4));
    let p = Indices::position_from_index(0);
    assert_eq!((p.row, p.column, p.subsquare), (0, 0, 0));
    let p = Indices::position_from_index(80);
    assert_eq!((p.row, p.column, p.subsquare), (8, 8, 8));
}

#[test]
fn peers_share_a_unit_and_are_listed_once() {
    for cell in 0..81usize {
        let peers = Indices::around(cell);
        assert_eq!(peers.len(), 20);
        for (i, p) in peers.iter().enumerate() {
            assert_ne!(*p, cell);
            assert!(!peers[..i].contains(p));
            let a = Indices::position_from_index(cell);
            let b = Indices::position_from_index(*p);
            assert!(a.row == b.row || a.column == b.column || a.subsquare == b.subsquare);
            assert!(Indices::around(*p).contains(&cell));
        }
    }
}

#[test]
fn every_cell_lies_in_its_row_column_and_subsquare() {
    for cell in 0..81usize {
        let p = Indices::position_from_index(cell);
        assert!(Indices::row(p.row).contains(&cell));
        assert!(Indices::column(p.column).contains(&cell));
        assert!(Indices::subsquare(p.subsquare).contains(&cell));
    }
}
