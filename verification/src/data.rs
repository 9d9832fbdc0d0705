//! A grid that keeps its rows, columns and subsquares at hand, and the check
//! that the values of one of them obey the puzzle.
use arrayvec::ArrayVec;
use std::collections::{HashMap, HashSet};
use vstd::prelude::*;

use crate::indices::{
    are_peers, column_cell, column_cells, peers_among, peers_of, row_cell, row_cells,
    subsquare_cell, subsquare_cells, Indices,
};
use crate::possibles::{build, Possibles};
use crate::{Data, DataCell, Index, Value};

verus! {

/// `arrayvec::ArrayVec`, a vector of at most `CAP` items kept in place. Its
/// inside is not looked at: what it holds is told by [`unit_items`].
#[verifier::external_type_specification]
#[verifier::external_body]
#[verifier::reject_recursive_types(T)]
pub struct ExArrayVec<T, const CAP: usize>(arrayvec::ArrayVec<T, CAP>);

/// The cells of one unit.
pub type UnitIndices = ArrayVec<Index, 9>;

/// The values of one unit, cell by cell.
pub type Subset = Vec<DataCell>;

/// One cell of the grid.
pub type SudokuDataCell = DataCell;

/// The whole grid.
pub type Dataset = Data;

/// The given values of a puzzle, by cell.
pub type SudokuDataTree = HashMap<Index, Value>;

/// The cells that a [`UnitIndices`] holds, first to last.
pub uninterp spec fn unit_items(unit: ArrayVec<Index, 9>) -> Seq<Index>;

/// `ArrayVec::from` on an array of nine cells: the vector holds the nine
/// cells of the array, in its order.
#[verifier::external_body]
fn unit_from(cells: [Index; 9]) -> (unit: UnitIndices)
    ensures
        unit_items(unit) == cells@,
{
    ArrayVec::from(cells)
}

/// `ArrayVec::as_slice` on a vector of cells: the cells that the vector
/// holds, in its order.
#[verifier::external_body]
fn unit_slice(unit: &UnitIndices) -> (cells: &[Index])
    ensures
        cells@ == unit_items(*unit),
{
    unit.as_slice()
}

/// The cells of row `row_index`, left to right.
pub fn row_indices(row_index: Index) -> (unit: UnitIndices)
    requires
        row_index < 9,
    ensures
        unit_items(unit) == row_cells(row_index as int),
{
    let mut cells: [Index; 9] = [0; 9];
    for i in 0..9usize
        invariant
            row_index < 9,
            forall|k: int| 0 <= k < i ==> cells[k] == row_cell(row_index as int, k),
    {
        cells[i] = 9 * row_index + i;
    }
    assert(cells@ =~= row_cells(row_index as int));
    unit_from(cells)
}

/// The cells of column `column_index`, top to bottom.
pub fn column_indices(column_index: Index) -> (unit: UnitIndices)
    requires
        column_index < 9,
    ensures
        unit_items(unit) == column_cells(column_index as int),
{
    let mut cells: [Index; 9] = [0; 9];
    for i in 0..9usize
        invariant
            column_index < 9,
            forall|k: int| 0 <= k < i ==> cells[k] == column_cell(column_index as int, k),
    {
        cells[i] = column_index + 9 * i;
    }
    assert(cells@ =~= column_cells(column_index as int));
    unit_from(cells)
}

/// The cells of subsquare `subsquare_index`, row by row.
pub fn subsquare_indices(subsquare_index: Index) -> (unit: UnitIndices)
    requires
        subsquare_index < 9,
    ensures
        unit_items(unit) == subsquare_cells(subsquare_index as int),
{
    let mut cells: [Index; 9] = [0; 9];
    let row: usize = subsquare_index / 3;
    let column: usize = subsquare_index % 3;
    let start: usize = 27 * row + 3 * column;
    for i in 0..3usize
        invariant
            subsquare_index < 9,
            start == 27 * (subsquare_index / 3) + 3 * (subsquare_index % 3),
            forall|k: int| 0 <= k < 3 * i ==> cells[k] == subsquare_cell(subsquare_index as int, k),
    {
        for j in 0..3usize
            invariant
                i < 3,
                subsquare_index < 9,
                start == 27 * (subsquare_index / 3) + 3 * (subsquare_index % 3),
                forall|k: int|
                    0 <= k < 3 * i + j ==> cells[k] == subsquare_cell(subsquare_index as int, k),
        {
            cells[3 * i + j] = start + 9 * i + j;
            assert((3 * i + j) / 3 == i && (3 * i + j) % 3 == j);
        }
    }
    assert(cells@ =~= subsquare_cells(subsquare_index as int));
    unit_from(cells)
}

/// The nine units that `f` yields for `0..9`.
fn generate_indices(f: impl Fn(Index) -> UnitIndices) -> (units: Vec<UnitIndices>)
    requires
        forall|i: Index| i < 9 ==> call_requires(f, (i,)),
    ensures
        units.len() == 9,
        forall|i: Index| i < 9 ==> call_ensures(f, (i,), #[trigger] units[i as int]),
{
    let mut units: Vec<UnitIndices> = Vec::new();
    for i in 0..9usize
        invariant
            units.len() == i,
            forall|i: Index| i < 9 ==> call_requires(f, (i,)),
            forall|k: Index| k < i ==> call_ensures(f, (k,), #[trigger] units[k as int]),
    {
        units.push(f(i));
    }
    units
}

/// The 27 units, worked out once.
struct CachedIndices {
    rows: Vec<UnitIndices>,
    columns: Vec<UnitIndices>,
    subsquares: Vec<UnitIndices>,
}

impl CachedIndices {
    /// Every unit is kept under its number and holds its cells.
    spec fn wf(&self) -> bool {
        &&& self.rows.len() == 9
        &&& self.columns.len() == 9
        &&& self.subsquares.len() == 9
        &&& forall|i: int| 0 <= i < 9 ==> unit_items(#[trigger] self.rows[i]) == row_cells(i)
        &&& forall|i: int| 0 <= i < 9 ==> unit_items(#[trigger] self.columns[i]) == column_cells(i)
        &&& forall|i: int|
            0 <= i < 9 ==> unit_items(#[trigger] self.subsquares[i]) == subsquare_cells(i)
    }

    fn new() -> (r: CachedIndices)
        ensures
            r.wf(),
    {
        CachedIndices {
            rows: generate_indices(row_indices),
            columns: generate_indices(column_indices),
            subsquares: generate_indices(subsquare_indices),
        }
    }
}

/// What a unit can be found to be, with the place of a fault.
pub enum SubsetState {
    Error { index: Index, message: String },
    Valid,
    Complete,
}

/// What [`check_subset`] finds of the values of a unit.
#[derive(Debug, Copy, Clone, PartialEq, Eq)]
pub enum SubsetCheckedState {
    /// Each of nine values occurs once.
    Complete,
    /// No value occurs twice, but not all cells are filled.
    Valid,
    /// Some value occurs twice.
    Error(SudokuDataCell),
}

impl SubsetCheckedState {
    /// Whether a value was found twice.
    pub fn is_error(&self) -> (b: bool)
        ensures
            b == (*self is Error),
    {
        match self {
            SubsetCheckedState::Error(_) => true,
            _ => false,
        }
    }

    /// Whether all nine cells were found filled, each with another value.
    pub fn is_complete(&self) -> (b: bool)
        ensures
            b == (*self is Complete),
    {
        match self {
            SubsetCheckedState::Complete => true,
            _ => false,
        }
    }
}

/// Two entries hold the same value.
pub open spec fn has_duplicate(s: Seq<DataCell>) -> bool {
    exists|i: int, j: int| 0 <= i < j < s.len() && s[i] is Some && s[i] == s[j]
}

/// How many entries hold a value.
pub open spec fn filled_count(s: Seq<DataCell>) -> nat
    decreases s.len(),
{
    if s.len() == 0 {
        0
    } else {
        filled_count(s.drop_last()) + if s.last() is Some {
            1nat
        } else {
            0nat
        }
    }
}

/// What is to be found of the entries `s`: a fault where a value occurs
/// twice; else complete where nine entries hold a value; else valid.
pub open spec fn verdict(s: Seq<DataCell>) -> SubsetCheckedState {
    if has_duplicate(s) {
        SubsetCheckedState::Error(None)
    } else if filled_count(s) == 9 {
        SubsetCheckedState::Complete
    } else {
        SubsetCheckedState::Valid
    }
}

/// Checks the values of one unit: see [`verdict`].
pub fn check_subset(data: Subset) -> (state: SubsetCheckedState)
    ensures
        state == verdict(data@),
{
    let cells = data.as_slice();
    let ghost items = cells@;
    let mut seen: HashSet<Value> = HashSet::new();
    let mut count: usize = 0;
    let mut twice = false;
    assert(items.take(0) =~= Seq::empty());
    for i in 0..cells.len()
        invariant
            items == cells@,
            count == filled_count(items.take(i as int)),
            count <= i,
            twice == has_duplicate(items.take(i as int)),
            forall|v: Value|
                seen@.contains(v) <==> exists|j: int| 0 <= j < i && items[j] == Some(v),
    {
        let ghost before = items.take(i as int);
        let ghost after = items.take(i + 1);
        proof {
            assert(after.drop_last() =~= before);
            assert(after.last() == items[i as int]);
        }
        match cells[i] {
            Some(v) => {
                let fresh = seen.insert(v);
                if !fresh {
                    twice = true;
                }
                count += 1;
                proof {
                    if !fresh {
                        let j = choose|j: int| 0 <= j < i && items[j] == Some(v);
                        assert(after[j] is Some && after[j] == after[i as int]);
                    }
                }
            },
            None => {},
        }
        proof {
            if has_duplicate(before) {
                let (a, b) = choose|a: int, b: int|
                    0 <= a < b < before.len() && before[a] is Some && before[a] == before[b];
                assert(after[a] is Some && after[a] == after[b]);
            }
            if has_duplicate(after) && !has_duplicate(before) {
                let (a, b) = choose|a: int, b: int|
                    0 <= a < b < after.len() && after[a] is Some && after[a] == after[b];
                if b < i {
                    assert(before[a] is Some && before[a] == before[b]);
                }
                assert(items[a] == items[i as int]);
            }
        }
    }
    assert(items.take(cells.len() as int) =~= items);
    if twice {
        SubsetCheckedState::Error(None)
    } else if count == 9 {
        SubsetCheckedState::Complete
    } else {
        SubsetCheckedState::Valid
    }
}

/// The entries of `grid` at the cells `cells`, in their order.
pub open spec fn pick(grid: Seq<DataCell>, cells: Seq<Index>) -> Seq<DataCell> {
    Seq::new(cells.len(), |k: int| grid[cells[k] as int])
}

/// What a list of findings comes to: the first fault if there is one; else
/// complete where all are complete; else valid.
pub open spec fn summary(checks: Seq<SubsetCheckedState>) -> SubsetCheckedState {
    if exists|i: int| 0 <= i < checks.len() && checks[i] is Error {
        checks[choose|i: int|
            0 <= i < checks.len() && checks[i] is Error && forall|j: int|
                0 <= j < i ==> !(checks[j] is Error)]
    } else if forall|i: int| 0 <= i < checks.len() ==> checks[i] is Complete {
        SubsetCheckedState::Complete
    } else {
        SubsetCheckedState::Valid
    }
}

/// The given values of `tree`, laid out as a grid.
pub open spec fn grid_of(tree: Map<Index, Value>) -> Seq<DataCell> {
    Seq::new(
        81,
        |c: int|
            if tree.contains_key(c as Index) {
                Some(tree[c as Index])
            } else {
                None
            },
    )
}

/// A grid, with the cells of its units at hand.
pub struct SudokuData {
    data: Dataset,
    indices: CachedIndices,
}

impl View for SudokuData {
    type V = Seq<DataCell>;

    closed spec fn view(&self) -> Seq<DataCell> {
        self.data@
    }
}

impl SudokuData {
    #[verifier::type_invariant]
    spec fn cached(&self) -> bool {
        self.indices.wf()
    }

    /// The grid that holds the values of `data_tree`, and nothing else.
    pub fn from_map(data_tree: SudokuDataTree) -> (r: SudokuData)
        requires
            forall|c: Index| data_tree@.contains_key(c) ==> c < 81,
        ensures
            r@ == grid_of(data_tree@),
    {
        let mut data: Dataset = [None; 81];
        for index in 0..81usize
            invariant
                forall|c: int|
                    0 <= c < 81 ==> data[c] == if c < index {
                        grid_of(data_tree@)[c]
                    } else {
                        None
                    },
        {
            match data_tree.get(&index) {
                Some(value) => {
                    data[index] = Some(*value);
                },
                None => {},
            }
        }
        assert(data@ =~= grid_of(data_tree@));
        SudokuData::new(data)
    }

    /// The grid `data`.
    pub fn new(data: Dataset) -> (r: SudokuData)
        ensures
            r@ == data@,
    {
        SudokuData { data, indices: CachedIndices::new() }
    }

    /// The entries of row `row_index`, left to right.
    pub fn row(&self, row_index: Index) -> (r: Subset)
        requires
            row_index < 9,
        ensures
            r@ == pick(self@, row_cells(row_index as int)),
    {
        proof {
            use_type_invariant(self);
        }
        self.entries(&self.indices.rows[row_index])
    }

    /// The entries of column `column_index`, top to bottom.
    pub fn column(&self, column_index: Index) -> (r: Subset)
        requires
            column_index < 9,
        ensures
            r@ == pick(self@, column_cells(column_index as int)),
    {
        proof {
            use_type_invariant(self);
        }
        self.entries(&self.indices.columns[column_index])
    }

    /// The entries of subsquare `subsquare_index`, row by row.
    pub fn subsquare(&self, subsquare_index: Index) -> (r: Subset)
        requires
            subsquare_index < 9,
        ensures
            r@ == pick(self@, subsquare_cells(subsquare_index as int)),
    {
        proof {
            use_type_invariant(self);
        }
        self.entries(&self.indices.subsquares[subsquare_index])
    }

    /// The entries at the cells of `unit`.
    fn entries(&self, unit: &UnitIndices) -> (r: Subset)
        requires
            unit_items(*unit).len() == 9,
            forall|k: int| 0 <= k < 9 ==> unit_items(*unit)[k] < 81,
        ensures
            r@ == pick(self@, unit_items(*unit)),
    {
        let at = unit_slice(unit);
        let mut cells: Subset = Vec::new();
        for k in 0..9usize
            invariant
                at@ == unit_items(*unit),
                at@.len() == 9,
                forall|k: int| 0 <= k < 9 ==> at@[k] < 81,
                cells.len() == k,
                forall|j: int| 0 <= j < k ==> cells[j] == self.data[at@[j] as int],
        {
            cells.push(self.data[at[k]]);
        }
        assert(cells@ =~= pick(self@, unit_items(*unit)));
        cells
    }

    /// The twenty cells that share a row, a column or a subsquare with
    /// `index`, each listed once, read off the units at hand.
    pub fn around_index(&self, index: Index) -> (r: Vec<Index>)
        requires
            index < 81,
        ensures
            r@ == peers_of(index as int),
            forall|other: usize| r@.contains(other) <==> are_peers(index as int, other as int),
    {
        proof {
            use_type_invariant(self);
        }
        let position = Indices::position_from_index(index);
        peers_among(
            index,
            unit_slice(&self.indices.rows[position.row]),
            unit_slice(&self.indices.columns[position.column]),
            unit_slice(&self.indices.subsquares[position.subsquare]),
        )
    }

    /// Writes `value` into the cell `index`.
    pub fn set(&mut self, index: usize, value: u8)
        requires
            index < 81,
        ensures
            final(self)@ == old(self)@.update(index as int, Some(value)),
    {
        proof {
            use_type_invariant(&*self);
        }
        self.data[index] = Some(value);
    }

    /// The findings for the nine rows, for the nine columns and for the nine
    /// subsquares, each group summed up in one: see [`summary`].
    pub fn check(&self) -> (r: Vec<SubsetCheckedState>)
        ensures
            r.len() == 3,
            r[0] == summary(Seq::new(9, |i: int| verdict(pick(self@, row_cells(i))))),
            r[1] == summary(Seq::new(9, |i: int| verdict(pick(self@, column_cells(i))))),
            r[2] == summary(Seq::new(9, |i: int| verdict(pick(self@, subsquare_cells(i))))),
    {
        let mut row_checks: Vec<SubsetCheckedState> = Vec::new();
        let mut column_checks: Vec<SubsetCheckedState> = Vec::new();
        let mut subsquare_checks: Vec<SubsetCheckedState> = Vec::new();
        for i in 0..9usize
            invariant
                row_checks.len() == i,
                column_checks.len() == i,
                subsquare_checks.len() == i,
                forall|k: int|
                    0 <= k < i ==> row_checks[k] == verdict(pick(self@, row_cells(k))),
                forall|k: int|
                    0 <= k < i ==> column_checks[k] == verdict(pick(self@, column_cells(k))),
                forall|k: int|
                    0 <= k < i ==> subsquare_checks[k] == verdict(
                        pick(self@, subsquare_cells(k)),
                    ),
        {
            row_checks.push(check_subset(self.row(i)));
            column_checks.push(check_subset(self.column(i)));
            subsquare_checks.push(check_subset(self.subsquare(i)));
        }
        proof {
            assert(row_checks@ =~= Seq::new(9, |i: int| verdict(pick(self@, row_cells(i)))));
            assert(column_checks@ =~= Seq::new(
                9,
                |i: int| verdict(pick(self@, column_cells(i))),
            ));
            assert(subsquare_checks@ =~= Seq::new(
                9,
                |i: int| verdict(pick(self@, subsquare_cells(i))),
            ));
        }
        let mut r: Vec<SubsetCheckedState> = Vec::new();
        r.push(SudokuData::summarise(&row_checks));
        r.push(SudokuData::summarise(&column_checks));
        r.push(SudokuData::summarise(&subsquare_checks));
        r
    }

    /// Sums up a list of findings: see [`summary`].
    fn summarise(checks: &Vec<SubsetCheckedState>) -> (r: SubsetCheckedState)
        ensures
            r == summary(checks@),
    {
        for i in 0..checks.len()
            invariant
                forall|j: int| 0 <= j < i ==> !(checks[j] is Error),
        {
            if checks[i].is_error() {
                return checks[i];
            }
        }
        for i in 0..checks.len()
            invariant
                forall|j: int| 0 <= j < checks.len() ==> !(checks[j] is Error),
                forall|j: int| 0 <= j < i ==> checks[j] is Complete,
        {
            if !checks[i].is_complete() {
                return SubsetCheckedState::Valid;
            }
        }
        SubsetCheckedState::Complete
    }

    /// The candidates that the grid leaves to its empty cells.
    pub fn compute_possibles(&self) -> (p: Possibles)
        ensures
            p@ == build(self@),
    {
        Possibles::from_data(self.data)
    }
}

} // verus!
