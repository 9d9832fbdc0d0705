//! The fixed geometry of the grid: which cells form each row, column and
//! subsquare, and which cells share one of them with a given cell.
use vstd::prelude::*;

use crate::{Index, Position};

verus! {

/// Cell `k` of row `row`.
pub open spec fn row_cell(row: int, k: int) -> int {
    9 * row + k
}

/// Cell `k` of column `column`.
pub open spec fn column_cell(column: int, k: int) -> int {
    column + 9 * k
}

/// Cell `k` of subsquare `subsquare`, counted row by row inside the square.
pub open spec fn subsquare_cell(subsquare: int, k: int) -> int {
    27 * (subsquare / 3) + 3 * (subsquare % 3) + 9 * (k / 3) + k % 3
}

/// The nine cells of a row, left to right.
pub open spec fn row_cells(row: int) -> Seq<Index> {
    Seq::new(9, |k: int| row_cell(row, k) as usize)
}

/// The nine cells of a column, top to bottom.
pub open spec fn column_cells(column: int) -> Seq<Index> {
    Seq::new(9, |k: int| column_cell(column, k) as usize)
}

/// The nine cells of a subsquare, row by row.
pub open spec fn subsquare_cells(subsquare: int) -> Seq<Index> {
    Seq::new(9, |k: int| subsquare_cell(subsquare, k) as usize)
}

/// Row of a cell.
pub open spec fn row_of(cell: int) -> int {
    cell / 9
}

/// Column of a cell.
pub open spec fn column_of(cell: int) -> int {
    cell % 9
}

/// Subsquare of a cell.
pub open spec fn subsquare_of(cell: int) -> int {
    3 * ((cell / 9) / 3) + (cell % 9) / 3
}

/// Two distinct cells of the grid that share a row, a column or a subsquare.
pub open spec fn are_peers(a: int, b: int) -> bool {
    &&& 0 <= a < 81
    &&& 0 <= b < 81
    &&& a != b
    &&& (row_of(a) == row_of(b) || column_of(a) == column_of(b) || subsquare_of(a)
        == subsquare_of(b))
}

/// The `j`-th number of `0, 1, 2, ..` once `x` is left out.
pub open spec fn skip(x: int, j: int) -> int {
    if j < x {
        j
    } else {
        j + 1
    }
}

/// Peer number `k` of a cell: first the eight other cells of its row, then the
/// eight other cells of its column, then the four cells of its subsquare that
/// lie in neither.
pub open spec fn peer_cell(cell: int, k: int) -> int {
    let r = row_of(cell);
    let c = column_of(cell);
    if k < 8 {
        9 * r + skip(c, k)
    } else if k < 16 {
        9 * skip(r, k - 8) + c
    } else {
        9 * (3 * (r / 3) + skip(r % 3, (k - 16) / 2)) + 3 * (c / 3) + skip(c % 3, (k - 16) % 2)
    }
}

/// The twenty peers of a cell, in the order of [`peer_cell`].
pub open spec fn peers_of(cell: int) -> Seq<Index> {
    Seq::new(20, |k: int| peer_cell(cell, k) as usize)
}

/// One of the 27 units: unit `3 * i` is row `i`, unit `3 * i + 1` is column
/// `i`, unit `3 * i + 2` is subsquare `i`.
pub open spec fn unit_cells(unit: int) -> Seq<Index> {
    if unit % 3 == 0 {
        row_cells(unit / 3)
    } else if unit % 3 == 1 {
        column_cells(unit / 3)
    } else {
        subsquare_cells(unit / 3)
    }
}

/// Where the cells of a row lie.
pub proof fn lemma_row_cell(row: int, k: int)
    requires
        0 <= row < 9,
        0 <= k < 9,
    ensures
        0 <= row_cell(row, k) < 81,
        row_of(row_cell(row, k)) == row,
        column_of(row_cell(row, k)) == k,
{
}

/// Where the cells of a column lie.
pub proof fn lemma_column_cell(column: int, k: int)
    requires
        0 <= column < 9,
        0 <= k < 9,
    ensures
        0 <= column_cell(column, k) < 81,
        row_of(column_cell(column, k)) == k,
        column_of(column_cell(column, k)) == column,
{
}

/// Where the cells of a subsquare lie.
pub proof fn lemma_subsquare_cell(subsquare: int, k: int)
    requires
        0 <= subsquare < 9,
        0 <= k < 9,
    ensures
        0 <= subsquare_cell(subsquare, k) < 81,
        row_of(subsquare_cell(subsquare, k)) == 3 * (subsquare / 3) + k / 3,
        column_of(subsquare_cell(subsquare, k)) == 3 * (subsquare % 3) + k % 3,
        subsquare_of(subsquare_cell(subsquare, k)) == subsquare,
{
    let q = subsquare / 3;
    let m = subsquare % 3;
    let a = k / 3;
    let b = k % 3;
    let cell = subsquare_cell(subsquare, k);
    assert(cell == 9 * (3 * q + a) + (3 * m + b));
    assert(0 <= 3 * m + b < 9);
    assert(cell / 9 == 3 * q + a);
    assert(cell % 9 == 3 * m + b);
    assert((3 * q + a) / 3 == q);
    assert((3 * m + b) / 3 == m);
}

/// The cells of a unit lie in the grid, and any two of them are peers.
pub proof fn lemma_unit_cells_are_peers(unit: int, i: int, j: int)
    requires
        0 <= unit < 27,
        0 <= i < 9,
        0 <= j < 9,
    ensures
        unit_cells(unit).len() == 9,
        unit_cells(unit)[i] < 81,
        i != j ==> are_peers(unit_cells(unit)[i] as int, unit_cells(unit)[j] as int),
{
    let n = unit / 3;
    if unit % 3 == 0 {
        lemma_row_cell(n, i);
        lemma_row_cell(n, j);
    } else if unit % 3 == 1 {
        lemma_column_cell(n, i);
        lemma_column_cell(n, j);
    } else {
        lemma_subsquare_cell(n, i);
        lemma_subsquare_cell(n, j);
        if i != j {
            assert(i / 3 != j / 3 || i % 3 != j % 3);
        }
    }
}

/// Every peer listed for a cell shares a unit with it, every cell that shares
/// a unit with it is listed, and none is listed twice.
pub proof fn lemma_peers_of(cell: int)
    requires
        0 <= cell < 81,
    ensures
        peers_of(cell).len() == 20,
        peers_of(cell).no_duplicates(),
        forall|k: int| 0 <= k < 20 ==> are_peers(cell, #[trigger] peers_of(cell)[k] as int),
        forall|other: int| #[trigger]
            are_peers(cell, other) ==> peers_of(cell).contains(other as usize),
{
    assert forall|k: int| 0 <= k < 20 implies are_peers(
        cell,
        #[trigger] peers_of(cell)[k] as int,
    ) by {
        lemma_peer_cell(cell, k);
    }
    assert forall|i: int, j: int| 0 <= i < 20 && 0 <= j < 20 && i != j implies peers_of(cell)[i]
        != peers_of(cell)[j] by {
        lemma_peer_cell_distinct(cell, i, j);
    }
    assert forall|other: int| #[trigger] are_peers(cell, other) implies peers_of(cell).contains(
        other as usize,
    ) by {
        let k = lemma_peer_position(cell, other);
        assert(peers_of(cell)[k] == other as usize);
    }
}

/// Row and column of each listed peer.
proof fn lemma_peer_cell_place(cell: int, k: int)
    requires
        0 <= cell < 81,
        0 <= k < 20,
    ensures
        0 <= peer_cell(cell, k) < 81,
        k < 8 ==> row_of(peer_cell(cell, k)) == row_of(cell) && column_of(peer_cell(cell, k))
            == skip(column_of(cell), k),
        8 <= k < 16 ==> row_of(peer_cell(cell, k)) == skip(row_of(cell), k - 8) && column_of(
            peer_cell(cell, k),
        ) == column_of(cell),
        16 <= k ==> row_of(peer_cell(cell, k)) == 3 * (row_of(cell) / 3) + skip(
            row_of(cell) % 3,
            (k - 16) / 2,
        ) && column_of(peer_cell(cell, k)) == 3 * (column_of(cell) / 3) + skip(
            column_of(cell) % 3,
            (k - 16) % 2,
        ),
{
    let r = row_of(cell);
    let c = column_of(cell);
    let p = peer_cell(cell, k);
    if k < 8 {
        assert(0 <= skip(c, k) < 9);
    } else if k < 16 {
        assert(0 <= skip(r, k - 8) < 9);
    } else {
        let x = skip(r % 3, (k - 16) / 2);
        let y = skip(c % 3, (k - 16) % 2);
        assert(0 <= x < 3 && 0 <= y < 3);
        assert(p == 9 * (3 * (r / 3) + x) + (3 * (c / 3) + y));
        assert(0 <= 3 * (c / 3) + y < 9);
    }
}

proof fn lemma_peer_cell(cell: int, k: int)
    requires
        0 <= cell < 81,
        0 <= k < 20,
    ensures
        are_peers(cell, peer_cell(cell, k)),
{
    lemma_peer_cell_place(cell, k);
    let r = row_of(cell);
    let c = column_of(cell);
    if k >= 16 {
        let x = skip(r % 3, (k - 16) / 2);
        let y = skip(c % 3, (k - 16) % 2);
        assert((3 * (r / 3) + x) / 3 == r / 3);
        assert((3 * (c / 3) + y) / 3 == c / 3);
    }
}

proof fn lemma_peer_cell_distinct(cell: int, i: int, j: int)
    requires
        0 <= cell < 81,
        0 <= i < 20,
        0 <= j < 20,
        i != j,
    ensures
        peer_cell(cell, i) != peer_cell(cell, j),
        0 <= peer_cell(cell, i) < 81,
        0 <= peer_cell(cell, j) < 81,
{
    lemma_peer_cell_place(cell, i);
    lemma_peer_cell_place(cell, j);
    if i >= 16 && j >= 16 {
        assert((i - 16) / 2 != (j - 16) / 2 || (i - 16) % 2 != (j - 16) % 2);
    }
}

proof fn lemma_peer_position(cell: int, other: int) -> (k: int)
    requires
        are_peers(cell, other),
    ensures
        0 <= k < 20,
        peer_cell(cell, k) == other,
{
    assert(other == 9 * row_of(other) + column_of(other));
    let r = row_of(cell);
    let c = column_of(cell);
    let r2 = row_of(other);
    let c2 = column_of(other);
    if r2 == r {
        if c2 < c {
            c2
        } else {
            c2 - 1
        }
    } else if c2 == c {
        if r2 < r {
            8 + r2
        } else {
            8 + r2 - 1
        }
    } else {
        let a = r2 % 3;
        let b = c2 % 3;
        let ia = if a < r % 3 {
            a
        } else {
            a - 1
        };
        let ib = if b < c % 3 {
            b
        } else {
            b - 1
        };
        16 + 2 * ia + ib
    }
}

/// The geometry of the grid. It holds no data: every function is a pure
/// function of its argument.
pub struct Indices {}

impl Indices {
    /// The nine cells of row `row`, left to right.
    pub fn row(row: Index) -> (r: Vec<Index>)
        requires
            row < 9,
        ensures
            r@ == row_cells(row as int),
    {
        let mut r: Vec<Index> = Vec::new();
        let mut k: usize = 0;
        while k < 9
            invariant
                row < 9,
                k <= 9,
                r.len() == k,
                forall|j: int| 0 <= j < k ==> r[j] == row_cell(row as int, j),
            decreases 9 - k,
        {
            r.push(9 * row + k);
            k += 1;
        }
        assert(r@ =~= row_cells(row as int));
        r
    }

    /// The nine cells of column `column`, top to bottom.
    pub fn column(column: Index) -> (r: Vec<Index>)
        requires
            column < 9,
        ensures
            r@ == column_cells(column as int),
    {
        let mut r: Vec<Index> = Vec::new();
        let mut k: usize = 0;
        while k < 9
            invariant
                column < 9,
                k <= 9,
                r.len() == k,
                forall|j: int| 0 <= j < k ==> r[j] == column_cell(column as int, j),
            decreases 9 - k,
        {
            r.push(column + 9 * k);
            k += 1;
        }
        assert(r@ =~= column_cells(column as int));
        r
    }

    /// The nine cells of subsquare `subsquare`, row by row.
    pub fn subsquare(subsquare: Index) -> (r: Vec<Index>)
        requires
            subsquare < 9,
        ensures
            r@ == subsquare_cells(subsquare as int),
    {
        let start: usize = 3 * (subsquare % 3) + 27 * (subsquare / 3);
        let mut r: Vec<Index> = Vec::new();
        let mut k: usize = 0;
        while k < 9
            invariant
                subsquare < 9,
                start == 3 * (subsquare % 3) + 27 * (subsquare / 3),
                k <= 9,
                r.len() == k,
                forall|j: int| 0 <= j < k ==> r[j] == subsquare_cell(subsquare as int, j),
            decreases 9 - k,
        {
            r.push(start + 9 * (k / 3) + k % 3);
            k += 1;
        }
        assert(r@ =~= subsquare_cells(subsquare as int));
        r
    }

    /// The twenty cells that share a row, a column or a subsquare with `idx`,
    /// each listed once: the rest of the row, then the rest of the column,
    /// then what is left of the subsquare.
    pub fn around(idx: usize) -> (r: Vec<Index>)
        requires
            idx < 81,
        ensures
            r@ == peers_of(idx as int),
            r.len() == 20,
            r@.no_duplicates(),
            forall|other: usize| r@.contains(other) <==> are_peers(idx as int, other as int),
    {
        let position = Indices::position_from_index(idx);
        let row = Indices::row(position.row);
        let column = Indices::column(position.column);
        let subsquare = Indices::subsquare(position.subsquare);
        peers_among(idx, row.as_slice(), column.as_slice(), subsquare.as_slice())
    }

    /// The row, column and subsquare of a cell.
    pub fn position_from_index(idx: Index) -> (p: Position)
        ensures
            p.row == row_of(idx as int),
            p.column == column_of(idx as int),
            p.subsquare == subsquare_of(idx as int),
    {
        let row: usize = idx / 9;
        let column: usize = idx % 9;
        let subsquare: usize = 3 * (row / 3) + column / 3;
        Position { row, column, subsquare }
    }
}

/// The peers of `idx`, picked from the cells of its row, its column and its
/// subsquare: the row without the cell, then the column without it, then the
/// cells of the subsquare that lie in neither.
pub fn peers_among(idx: Index, row: &[Index], column: &[Index], subsquare: &[Index]) -> (r: Vec<
    Index,
>)
    requires
        idx < 81,
        row@ == row_cells(row_of(idx as int)),
        column@ == column_cells(column_of(idx as int)),
        subsquare@ == subsquare_cells(subsquare_of(idx as int)),
    ensures
        r@ == peers_of(idx as int),
        r.len() == 20,
        r@.no_duplicates(),
        forall|other: usize| r@.contains(other) <==> are_peers(idx as int, other as int),
{
    let position = Indices::position_from_index(idx);
    let mut r: Vec<Index> = Vec::new();
    let mut k: usize = 0;
    while k < 9
        invariant
            idx < 81,
            position.row == idx / 9,
            position.column == idx % 9,
            row@ == row_cells(position.row as int),
            k <= 9,
            r.len() == (if k <= position.column { k } else { (k - 1) as usize }),
            forall|j: int| 0 <= j < r.len() ==> r[j] == peer_cell(idx as int, j),
        decreases 9 - k,
    {
        if row[k] != idx {
            r.push(row[k]);
        }
        k += 1;
    }
    k = 0;
    while k < 9
        invariant
            idx < 81,
            position.row == idx / 9,
            position.column == idx % 9,
            column@ == column_cells(position.column as int),
            k <= 9,
            r.len() == 8 + (if k <= position.row { k } else { (k - 1) as usize }),
            forall|j: int| 0 <= j < r.len() ==> r[j] == peer_cell(idx as int, j),
        decreases 9 - k,
    {
        if column[k] != idx {
            r.push(column[k]);
        }
        k += 1;
    }
    k = 0;
    let ghost mut taken: int = 0;
    while k < 9
        invariant
            idx < 81,
            position.row == idx / 9,
            position.column == idx % 9,
            position.subsquare == subsquare_of(idx as int),
            subsquare@ == subsquare_cells(position.subsquare as int),
            k <= 9,
            r.len() == 16 + taken,
            taken == box_taken(idx as int, k as int),
            forall|j: int| 0 <= j < r.len() ==> r[j] == peer_cell(idx as int, j),
        decreases 9 - k,
    {
        let other: usize = subsquare[k];
        proof {
            lemma_subsquare_cell(position.subsquare as int, k as int);
            lemma_box_step(idx as int, k as int);
        }
        if other / 9 != position.row && other % 9 != position.column {
            r.push(other);
            proof {
                taken = taken + 1;
            }
        }
        k += 1;
    }
    proof {
        lemma_peers_of(idx as int);
        assert(r@ =~= peers_of(idx as int));
        assert forall|other: usize| r@.contains(other) implies are_peers(
            idx as int,
            other as int,
        ) by {
            let k = choose|k: int| 0 <= k < 20 && r@[k] == other;
            assert(are_peers(idx as int, peers_of(idx as int)[k] as int));
        }
    }
    r
}

/// How many of the first `k` cells of the subsquare of `cell` lie neither in
/// its row nor in its column.
spec fn box_taken(cell: int, k: int) -> int {
    let a = (cell / 9) % 3;
    let b = (cell % 9) % 3;
    let full_rows = k / 3;
    let rows_before = if full_rows <= a {
        full_rows
    } else {
        full_rows - 1
    };
    let in_row = if full_rows == a {
        0
    } else if k % 3 <= b {
        k % 3
    } else {
        k % 3 - 1
    };
    2 * rows_before + in_row
}

/// One step of the walk through the subsquare of `cell`: cell `k` of the
/// subsquare is taken exactly if it lies off the row and the column of
/// `cell`, and then it is the next peer to be listed.
proof fn lemma_box_step(cell: int, k: int)
    requires
        0 <= cell < 81,
        0 <= k < 9,
    ensures
        box_taken(cell, 0) == 0,
        k == 8 ==> box_taken(cell, 9) == 4,
        (k / 3 != row_of(cell) % 3 && k % 3 != column_of(cell) % 3) ==> {
            &&& box_taken(cell, k + 1) == box_taken(cell, k) + 1
            &&& 0 <= box_taken(cell, k) < 4
            &&& peer_cell(cell, 16 + box_taken(cell, k)) == subsquare_cell(subsquare_of(cell), k)
        },
        !(k / 3 != row_of(cell) % 3 && k % 3 != column_of(cell) % 3) ==> box_taken(cell, k + 1)
            == box_taken(cell, k),
{
    let r = row_of(cell);
    let c = column_of(cell);
    let a = r % 3;
    let b = c % 3;
    let x = k / 3;
    let y = k % 3;
    assert(subsquare_of(cell) / 3 == r / 3);
    assert(subsquare_of(cell) % 3 == c / 3);
    if y == 2 {
        assert((k + 1) / 3 == x + 1 && (k + 1) % 3 == 0);
    } else {
        assert((k + 1) / 3 == x && (k + 1) % 3 == y + 1);
    }
    if x != a && y != b {
        let t = box_taken(cell, k);
        let rows_before = if x <= a { x } else { x - 1 };
        let in_row = if y <= b { y } else { y - 1 };
        assert(t == 2 * rows_before + in_row);
        assert(0 <= in_row < 2);
        assert(t / 2 == rows_before && t % 2 == in_row);
        assert(skip(a, rows_before) == x);
        assert(skip(b, in_row) == y);
    }
}

} // verus!
