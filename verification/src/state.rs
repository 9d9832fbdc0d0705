//! The solver's state as a mathematical value, the rules of the puzzle, and
//! what the deduction rules do to the state.
use vstd::prelude::*;

use crate::indices::{are_peers, unit_cells};
use crate::possibles::{
    all_overlays, bounded, candidate, free_among_peers, hidden_singles, naked_singles, strike,
    Candidates,
};
use crate::{DataCell, Index, Value};

verus! {

/// The grid together with the candidates of its empty cells.
pub struct State {
    pub grid: Seq<DataCell>,
    pub cands: Candidates,
}

/// The cells that share a row, a column or a subsquare with `cell`.
pub open spec fn peer_set(cell: Index) -> Set<Index> {
    Set::new(|p: Index| are_peers(cell as int, p as int))
}

/// The state once `value` has been written into `cell`: the cell is no
/// longer tracked, and none of its peers may take the value any more. A cell
/// that already holds a value keeps it, and nothing changes.
pub open spec fn place(s: State, cell: Index, value: Value) -> State {
    if cell < 81 && s.grid[cell as int] is None {
        State {
            grid: s.grid.update(cell as int, Some(value)),
            cands: strike(s.cands.remove(cell), value, peer_set(cell)),
        }
    } else {
        s
    }
}

/// `cell` is empty and may still take `value`: to place the value there
/// changes the state.
pub open spec fn takes(s: State, cell: Index, value: Value) -> bool {
    cell < 81 && s.grid[cell as int] is None && candidate(s.cands, cell, value)
}

/// The state once `value` has been placed into `cell`, if the cell may still
/// take it. Where the value is no candidate of the cell (any more), nothing
/// changes.
pub open spec fn place_if_candidate(s: State, cell: Index, value: Value) -> State {
    if candidate(s.cands, cell, value) {
        place(s, cell, value)
    } else {
        s
    }
}

/// The state once the entries of `list` have been gone through, first to
/// last: each is placed if, when its turn comes, its cell may still take its
/// value, and passed over if not.
pub open spec fn place_all(s: State, list: Seq<(Index, Value)>) -> State
    decreases list.len(),
{
    if list.len() == 0 {
        s
    } else {
        place_if_candidate(place_all(s, list.drop_last()), list.last().0, list.last().1)
    }
}

/// The entries of `list` that [`place_all`] places, in their order.
pub open spec fn placed_all(s: State, list: Seq<(Index, Value)>) -> Seq<(Index, Value)>
    decreases list.len(),
{
    if list.len() == 0 {
        Seq::empty()
    } else {
        let rest = placed_all(s, list.drop_last());
        if takes(place_all(s, list.drop_last()), list.last().0, list.last().1) {
            rest.push(list.last())
        } else {
            rest
        }
    }
}

/// The state after the cells with a single candidate have been filled. The
/// cells are listed as the pass begins; a cell whose candidate has been
/// struck by the time its turn comes is left empty.
pub open spec fn after_naked_singles(s: State) -> State {
    place_all(s, naked_singles(s.cands, 81))
}

/// The state after each value with a single place left in some unit has been
/// put there. The places are listed as the pass begins; a place whose cell
/// may no longer take the value when its turn comes is passed over.
pub open spec fn after_hidden_singles(s: State) -> State {
    place_all(s, hidden_singles(s.cands, 243))
}

/// The state after a round of the locked-candidates rule.
pub open spec fn after_overlays(s: State) -> State {
    State { grid: s.grid, cands: all_overlays(s.cands, 54) }
}

/// One full pass: the three rules, one after the other.
pub open spec fn pass(s: State) -> State {
    after_overlays(after_hidden_singles(after_naked_singles(s)))
}

/// What a full pass places, in the order of placement.
pub open spec fn placed_in_pass(s: State) -> Seq<(Index, Value)> {
    placed_all(s, naked_singles(s.cands, 81)) + placed_all(
        after_naked_singles(s),
        hidden_singles(after_naked_singles(s).cands, 243),
    )
}

/// Whether the run goes on after a pass that led from `before` to `after`:
/// it does while cells are left and the pass has filled at least one.
pub open spec fn goes_on(before: State, after: State) -> bool {
    0 < remaining(after) < remaining(before)
}

/// The number of cells that are still empty.
pub open spec fn remaining(s: State) -> nat {
    s.cands.dom().len()
}

/// Passes are repeated as long as each fills at least one cell and cells are
/// left; the state after the last of them.
pub open spec fn run(s: State) -> State
    decreases remaining(s),
{
    let t = pass(s);
    if goes_on(s, t) {
        run(t)
    } else {
        t
    }
}

/// A complete grid that obeys the puzzle: every cell holds a value of
/// `1..=9`, no two cells that share a unit hold the same value, and so each
/// of the 27 units holds each value.
pub open spec fn is_solution(sol: Seq<Value>) -> bool {
    &&& sol.len() == 81
    &&& forall|c: int| 0 <= c < 81 ==> 1 <= #[trigger] sol[c] <= 9
    &&& forall|a: int, b: int| #[trigger] are_peers(a, b) ==> sol[a] != sol[b]
    &&& forall|unit: int, v: Value|
        0 <= unit < 27 && 1 <= v <= 9 ==> #[trigger] holds_in_unit(sol, unit, v)
}

/// Some cell of `unit` holds `value`.
pub open spec fn holds_in_unit(sol: Seq<Value>, unit: int, value: Value) -> bool {
    exists|k: int| 0 <= k < 9 && sol[#[trigger] unit_cells(unit)[k] as int] == value
}

/// `sol` agrees with every value that `grid` holds.
pub open spec fn extends(sol: Seq<Value>, grid: Seq<DataCell>) -> bool {
    forall|c: int| 0 <= c < 81 && #[trigger] grid[c] is Some ==> grid[c] == Some(sol[c])
}

/// `sol` is a solution of the puzzle that `grid` poses.
pub open spec fn solves(sol: Seq<Value>, grid: Seq<DataCell>) -> bool {
    is_solution(sol) && extends(sol, grid)
}

/// Every tracked cell may still take the value that `sol` gives it.
pub open spec fn admits(m: Candidates, sol: Seq<Value>) -> bool {
    forall|c: Index| #[trigger] m.contains_key(c) ==> m[c].contains(sol[c as int])
}

/// No two cells that share a unit hold the same value.
pub open spec fn consistent(grid: Seq<DataCell>) -> bool {
    forall|a: int, b: int| #[trigger]
        are_peers(a, b) && grid[a] is Some ==> grid[a] != grid[b]
}

/// What holds of the state at every moment of a run:
/// - exactly the empty cells of the grid are tracked;
/// - no candidate of a cell is held by one of its peers;
/// - no candidate that some solution of the grid needs has been struck.
pub open spec fn coherent(s: State) -> bool {
    &&& s.grid.len() == 81
    &&& bounded(s.cands)
    &&& forall|c: Index| #[trigger] s.cands.contains_key(c) <==> c < 81 && s.grid[c as int] is None
    &&& forall|c: Index, v: Value| #[trigger]
        candidate(s.cands, c, v) ==> free_among_peers(s.grid, c, v)
    &&& forall|sol: Seq<Value>| #[trigger] solves(sol, s.grid) ==> admits(s.cands, sol)
}

/// `b` can come after `a`: values stay where they are, no cell becomes empty
/// again, and no candidate comes back.
pub open spec fn refines(a: State, b: State) -> bool {
    &&& forall|c: int| 0 <= c < 81 && #[trigger] a.grid[c] is Some ==> b.grid[c] == a.grid[c]
    &&& b.cands.dom().subset_of(a.cands.dom())
    &&& forall|c: Index, v: Value| #[trigger] candidate(b.cands, c, v) ==> candidate(a.cands, c, v)
}

} // verus!
