//! What the deduction rules guarantee, proved over the mathematical state.
use vstd::prelude::*;

use crate::indices::{are_peers, lemma_unit_cells_are_peers, subsquare_cells, unit_cells};
use crate::possibles::{
    all_overlays, bounded, build, candidate, free_among_peers, has_single, hidden_in,
    hidden_singles, is_single, naked_singles, occurs, overlay, overlay_line, purged, restrict,
    single_of,
};
use crate::state::{
    admits, after_hidden_singles, after_naked_singles, coherent, consistent, goes_on,
    holds_in_unit, pass, peer_set, place, place_all, place_if_candidate, refines, remaining, run,
    solves, takes, State,
};
use crate::{DataCell, Index, Value};

verus! {

/// Being peers goes both ways.
pub proof fn lemma_peers_symmetric(a: int, b: int)
    ensures
        are_peers(a, b) == are_peers(b, a),
{
}

/// The candidates that a grid starts with are coherent with it.
pub proof fn lemma_build_coherent(grid: Seq<DataCell>)
    requires
        grid.len() == 81,
    ensures
        coherent(State { grid, cands: build(grid) }),
{
    let m = build(grid);
    lemma_grid_cells_finite(81);
    assert(m.dom().subset_of(grid_cells(81)));
    vstd::set_lib::lemma_len_subset(m.dom(), grid_cells(81));
    assert forall|sol: Seq<Value>| #[trigger] solves(sol, grid) implies admits(m, sol) by {
        assert forall|c: Index| #[trigger] m.contains_key(c) implies m[c].contains(
            sol[c as int],
        ) by {
            assert forall|p: Index| #[trigger] are_peers(c as int, p as int) implies grid[p as int]
                != Some(sol[c as int]) by {
                if grid[p as int] is Some {
                    assert(grid[p as int] == Some(sol[p as int]));
                }
            }
        }
    }
}

/// The first `n` cells of the grid.
spec fn grid_cells(n: nat) -> Set<Index> {
    Set::new(|c: Index| c < n)
}

proof fn lemma_grid_cells_finite(n: nat)
    ensures
        grid_cells(n).finite(),
    decreases n,
{
    if n == 0 {
        assert(grid_cells(0) =~= Set::empty());
    } else {
        lemma_grid_cells_finite((n - 1) as nat);
        if n - 1 <= usize::MAX {
            assert(grid_cells(n) =~= grid_cells((n - 1) as nat).insert((n - 1) as usize));
        } else {
            assert(grid_cells(n) =~= grid_cells((n - 1) as nat));
        }
    }
}

/// Placing a value keeps the state coherent, whatever the value, and only
/// ever takes cells and candidates away.
pub proof fn lemma_place_coherent(s: State, cell: Index, value: Value)
    requires
        coherent(s),
    ensures
        coherent(place(s, cell, value)),
        refines(s, place(s, cell, value)),
        remaining(place(s, cell, value)) <= remaining(s),
{
    let t = place(s, cell, value);
    if cell < 81 && s.grid[cell as int] is None {
        assert(t.cands.dom() =~= s.cands.dom().remove(cell));
        assert forall|c: Index, v: Value| #[trigger] candidate(t.cands, c, v) implies candidate(
            s.cands,
            c,
            v,
        ) && free_among_peers(t.grid, c, v) by {
            assert(candidate(s.cands, c, v));
            assert forall|p: Index| #[trigger] are_peers(c as int, p as int) implies t.grid[p as int]
                != Some(v) by {
                if p == cell {
                    lemma_peers_symmetric(c as int, p as int);
                    assert(peer_set(cell).contains(c));
                }
            }
        }
        assert forall|sol: Seq<Value>| #[trigger] solves(sol, t.grid) implies admits(
            t.cands,
            sol,
        ) by {
            assert(t.grid[cell as int] is Some);
            assert forall|c: int| 0 <= c < 81 && #[trigger] s.grid[c] is Some implies s.grid[c]
                == Some(sol[c]) by {
                assert(t.grid[c] is Some);
            }
            assert(solves(sol, s.grid));
            assert(admits(s.cands, sol));
            assert forall|c: Index| #[trigger] t.cands.contains_key(c) implies t.cands[c].contains(
                sol[c as int],
            ) by {
                assert(s.cands.contains_key(c));
                if peer_set(cell).contains(c) {
                    assert(are_peers(cell as int, c as int));
                }
            }
        }
    }
}

/// Placing the value that a solution has in the cell keeps the solution.
pub proof fn lemma_place_sound(s: State, cell: Index, value: Value, sol: Seq<Value>)
    requires
        s.grid.len() == 81,
        solves(sol, s.grid),
        cell < 81 && s.grid[cell as int] is None ==> sol[cell as int] == value,
    ensures
        solves(sol, place(s, cell, value).grid),
{
    let t = place(s, cell, value);
    assert forall|c: int| 0 <= c < 81 && #[trigger] t.grid[c] is Some implies t.grid[c] == Some(
        sol[c],
    ) by {
        if c != cell {
            assert(s.grid[c] is Some);
        }
    }
}

/// A cell that holds a value keeps it: to place a value there changes
/// nothing, whatever the value.
pub proof fn lemma_place_on_filled(s: State, cell: Index, value: Value)
    requires
        cell < 81,
        s.grid[cell as int] is Some,
    ensures
        place(s, cell, value) == s,
{
}

/// A value that is no candidate of the cell is not placed.
pub proof fn lemma_place_needs_candidate(s: State, cell: Index, value: Value)
    requires
        !candidate(s.cands, cell, value),
    ensures
        place_if_candidate(s, cell, value) == s,
{
}

/// To place a second value into a cell, after a first, changes nothing.
pub proof fn lemma_place_idempotent(s: State, cell: Index, first: Value, second: Value)
    requires
        s.grid.len() == 81,
    ensures
        place(place(s, cell, first), cell, second) == place(s, cell, first),
{
}

/// A value that a solution has in an empty cell is held by none of the
/// cell's peers: to place it breaks no rule of the puzzle.
pub proof fn lemma_solution_value_fits(grid: Seq<DataCell>, sol: Seq<Value>, cell: Index)
    requires
        solves(sol, grid),
        cell < 81,
    ensures
        free_among_peers(grid, cell, sol[cell as int]),
{
    assert forall|p: Index| #[trigger] are_peers(cell as int, p as int) implies grid[p as int]
        != Some(sol[cell as int]) by {
        if grid[p as int] is Some {
            assert(grid[p as int] == Some(sol[p as int]));
        }
    }
}

/// A value that is still a candidate of a cell is held by none of the cell's
/// peers: to place it breaks no rule of the puzzle.
pub proof fn lemma_candidate_fits(s: State, cell: Index, value: Value)
    requires
        coherent(s),
        candidate(s.cands, cell, value),
    ensures
        free_among_peers(s.grid, cell, value),
        consistent(s.grid) ==> consistent(place(s, cell, value).grid),
{
    let t = place(s, cell, value);
    if consistent(s.grid) {
        assert forall|a: int, b: int| #[trigger] are_peers(a, b) && t.grid[a] is Some implies t.grid[a]
            != t.grid[b] by {
            lemma_peers_symmetric(a, b);
            if a == cell {
                assert(are_peers(cell as int, b as Index as int));
            } else if b == cell {
                assert(are_peers(cell as int, a as Index as int));
            }
        }
    }
}

/// A cell with a single candidate holds that candidate in every solution.
pub proof fn lemma_naked_single_sound(s: State, cell: Index, value: Value, sol: Seq<Value>)
    requires
        coherent(s),
        solves(sol, s.grid),
        is_single(s.cands, cell, value),
    ensures
        sol[cell as int] == value,
{
    assert(admits(s.cands, sol));
    assert(s.cands[cell].contains(sol[cell as int]));
}

/// A grid that has a solution holds no value twice in a unit.
pub proof fn lemma_solvable_is_consistent(grid: Seq<DataCell>, sol: Seq<Value>)
    requires
        solves(sol, grid),
    ensures
        consistent(grid),
{
    assert forall|a: int, b: int| #[trigger] are_peers(a, b) && grid[a] is Some implies grid[a]
        != grid[b] by {
        if grid[b] is Some {
            assert(grid[b] == Some(sol[b]));
        }
    }
}

/// In a unit where some empty cell may still take `value`, the cell that a
/// solution gives the value to is empty too, and may still take it.
pub proof fn lemma_holder(s: State, sol: Seq<Value>, unit: int, value: Value, cell: Index) -> (x:
    Index)
    requires
        coherent(s),
        solves(sol, s.grid),
        0 <= unit < 27,
        unit_cells(unit).contains(cell),
        candidate(s.cands, cell, value),
    ensures
        unit_cells(unit).contains(x),
        x < 81,
        sol[x as int] == value,
        candidate(s.cands, x, value),
{
    assert(s.cands[cell].contains(value));
    assert(holds_in_unit(sol, unit, value));
    let k = choose|k: int| 0 <= k < 9 && sol[#[trigger] unit_cells(unit)[k] as int] == value;
    let j = choose|j: int| 0 <= j < 9 && unit_cells(unit)[j] == cell;
    let x = unit_cells(unit)[k];
    lemma_unit_cells_are_peers(unit, j, k);
    if s.grid[x as int] is Some {
        assert(s.grid[x as int] == Some(sol[x as int]));
        assert(s.cands.contains_key(cell));
        assert(free_among_peers(s.grid, cell, value));
        assert(are_peers(cell as int, x as int));
    }
    assert(s.cands.contains_key(x));
    assert(admits(s.cands, sol));
    x
}

/// A value with a single place left in a unit is there in every solution.
pub proof fn lemma_hidden_single_sound(
    s: State,
    unit: int,
    value: Value,
    cell: Index,
    sol: Seq<Value>,
)
    requires
        coherent(s),
        solves(sol, s.grid),
        0 <= unit < 27,
        hidden_in(s.cands, unit, value) == Some(cell),
    ensures
        cell < 81,
        sol[cell as int] == value,
{
    let cells = restrict(s.cands, value, unit_cells(unit).to_set());
    assert(cells =~= set![cell]);
    assert(set![cell].contains(cell));
    assert(cells.contains(cell));
    let x = lemma_holder(s, sol, unit, value, cell);
    assert(cells.contains(x));
}

/// `b` can come after `a`, and `c` after `b`: so `c` can come after `a`.
pub proof fn lemma_refines_transitive(a: State, b: State, c: State)
    requires
        refines(a, b),
        refines(b, c),
        a.grid.len() == 81,
        b.grid.len() == 81,
    ensures
        refines(a, c),
{
    assert forall|x: int| 0 <= x < 81 && #[trigger] a.grid[x] is Some implies c.grid[x]
        == a.grid[x] by {
        assert(b.grid[x] is Some);
    }
    assert forall|x: Index, v: Value| #[trigger] candidate(c.cands, x, v) implies candidate(
        a.cands,
        x,
        v,
    ) by {
        assert(candidate(b.cands, x, v));
    }
}

/// A later state has no more empty cells than an earlier one.
pub proof fn lemma_refines_remaining(a: State, b: State)
    requires
        refines(a, b),
        bounded(a.cands),
    ensures
        remaining(b) <= remaining(a),
{
    vstd::set_lib::lemma_len_subset(b.cands.dom(), a.cands.dom());
}

/// The locked-candidates rule, applied to two units, keeps the state
/// coherent: no candidate that a solution needs is struck.
pub proof fn lemma_overlay_coherent(s: State, sub_unit: int, line_unit: int)
    requires
        coherent(s),
        0 <= sub_unit < 27,
        0 <= line_unit < 27,
    ensures
        ({
            let t = State {
                grid: s.grid,
                cands: overlay(
                    s.cands,
                    unit_cells(sub_unit).to_set(),
                    unit_cells(line_unit).to_set(),
                ),
            };
            &&& coherent(t)
            &&& refines(s, t)
            &&& t.cands.dom() == s.cands.dom()
        }),
{
    let sub = unit_cells(sub_unit).to_set();
    let line = unit_cells(line_unit).to_set();
    let t = State { grid: s.grid, cands: overlay(s.cands, sub, line) };
    assert(t.cands.dom() =~= s.cands.dom());
    assert forall|c: Index, v: Value| #[trigger] candidate(t.cands, c, v) implies candidate(
        s.cands,
        c,
        v,
    ) && free_among_peers(t.grid, c, v) by {
        assert(candidate(s.cands, c, v));
    }
    assert forall|sol: Seq<Value>| #[trigger] solves(sol, t.grid) implies admits(t.cands, sol) by {
        assert(admits(s.cands, sol));
        assert forall|c: Index| #[trigger] t.cands.contains_key(c) implies t.cands[c].contains(
            sol[c as int],
        ) by {
            let v = sol[c as int];
            assert(s.cands.contains_key(c));
            assert(s.cands[c].contains(v));
            if purged(s.cands, sub, line, c, v) {
                let y = choose|y: Index| #[trigger]
                    sub.intersect(line).contains(y) && s.cands.contains_key(y)
                        && s.cands[y].contains(v);
                if sub.contains(c) && !line.contains(c) && !occurs(
                    s.cands,
                    v,
                    line.difference(sub),
                ) {
                    let x = lemma_holder(s, sol, line_unit, v, y);
                    assert(line.contains(x));
                    if !sub.contains(x) {
                        assert(line.difference(sub).contains(x));
                    }
                    lemma_same_unit_peers(sub_unit, c, x);
                } else {
                    let x = lemma_holder(s, sol, sub_unit, v, y);
                    assert(sub.contains(x));
                    if !line.contains(x) {
                        assert(sub.difference(line).contains(x));
                    }
                    lemma_same_unit_peers(line_unit, c, x);
                }
            }
        }
    }
}

/// Two different cells of one unit are peers.
pub proof fn lemma_same_unit_peers(unit: int, a: Index, b: Index)
    requires
        0 <= unit < 27,
        unit_cells(unit).contains(a),
        unit_cells(unit).contains(b),
        a != b,
    ensures
        are_peers(a as int, b as int),
{
    let i = choose|i: int| 0 <= i < 9 && unit_cells(unit)[i] == a;
    let j = choose|j: int| 0 <= j < 9 && unit_cells(unit)[j] == b;
    lemma_unit_cells_are_peers(unit, i, j);
}

/// The steps of a round of the locked-candidates rule keep the state
/// coherent, leave the grid and the empty cells as they are, and only take
/// candidates away.
pub proof fn lemma_overlays_coherent(s: State, n: nat)
    requires
        coherent(s),
        n <= 54,
    ensures
        ({
            let t = State { grid: s.grid, cands: all_overlays(s.cands, n) };
            &&& coherent(t)
            &&& refines(s, t)
            &&& t.cands.dom() == s.cands.dom()
        }),
    decreases n,
{
    if n > 0 {
        let step = n - 1;
        lemma_overlays_coherent(s, (n - 1) as nat);
        let mid = State { grid: s.grid, cands: all_overlays(s.cands, (n - 1) as nat) };
        let sub_unit = 3 * (step / 6) + 2;
        let line = 3 * (step / 6 / 3) + (step % 6) / 2;
        let column = 3 * (step / 6 % 3) + (step % 6) / 2;
        let line_unit = if step % 2 == 0 {
            3 * line
        } else {
            3 * column + 1
        };
        assert(unit_cells(sub_unit) == subsquare_cells(step / 6));
        assert(unit_cells(line_unit) == overlay_line(step));
        lemma_overlay_coherent(mid, sub_unit, line_unit);
        let t = State { grid: s.grid, cands: all_overlays(s.cands, n) };
        lemma_refines_transitive(s, mid, t);
    }
}

/// Going through a list of values keeps the state coherent, and only ever
/// takes cells and candidates away.
pub proof fn lemma_place_all_coherent(s: State, list: Seq<(Index, Value)>)
    requires
        coherent(s),
    ensures
        coherent(place_all(s, list)),
        refines(s, place_all(s, list)),
    decreases list.len(),
{
    if list.len() > 0 {
        let mid = place_all(s, list.drop_last());
        lemma_place_all_coherent(s, list.drop_last());
        lemma_place_coherent(mid, list.last().0, list.last().1);
        lemma_refines_transitive(s, mid, place_all(s, list));
    }
}

/// Every value that is placed while a list is gone through is held, at that
/// moment, by none of the peers of its cell.
pub proof fn lemma_placement_fits(s: State, list: Seq<(Index, Value)>, k: int)
    requires
        coherent(s),
        0 <= k < list.len(),
        takes(place_all(s, list.take(k)), list[k].0, list[k].1),
    ensures
        free_among_peers(place_all(s, list.take(k)).grid, list[k].0, list[k].1),
{
    lemma_place_all_coherent(s, list.take(k));
    lemma_candidate_fits(place_all(s, list.take(k)), list[k].0, list[k].1);
}

/// Going through a list of values never puts a value twice into a row, a
/// column or a subsquare.
pub proof fn lemma_place_all_consistent(s: State, list: Seq<(Index, Value)>)
    requires
        coherent(s),
        consistent(s.grid),
    ensures
        consistent(place_all(s, list).grid),
    decreases list.len(),
{
    if list.len() > 0 {
        let mid = place_all(s, list.drop_last());
        lemma_place_all_consistent(s, list.drop_last());
        lemma_place_all_coherent(s, list.drop_last());
        if candidate(mid.cands, list.last().0, list.last().1) {
            lemma_candidate_fits(mid, list.last().0, list.last().1);
        }
    }
}

/// Every entry of `list` puts into its cell the value that `sol` has there.
pub open spec fn agrees(list: Seq<(Index, Value)>, sol: Seq<Value>) -> bool {
    forall|k: int|
        0 <= k < list.len() ==> (#[trigger] list[k]).0 < 81 && sol[list[k].0 as int] == list[k].1
}

/// Going through values that a solution has keeps the solution.
pub proof fn lemma_place_all_sound(s: State, list: Seq<(Index, Value)>, sol: Seq<Value>)
    requires
        coherent(s),
        solves(sol, s.grid),
        agrees(list, sol),
    ensures
        solves(sol, place_all(s, list).grid),
    decreases list.len(),
{
    if list.len() > 0 {
        let mid = place_all(s, list.drop_last());
        assert(agrees(list.drop_last(), sol)) by {
            assert forall|k: int| 0 <= k < list.drop_last().len() implies (
            #[trigger] list.drop_last()[k]).0 < 81 && sol[list.drop_last()[k].0 as int]
                == list.drop_last()[k].1 by {
                assert(list.drop_last()[k] == list[k]);
            }
        }
        lemma_place_all_sound(s, list.drop_last(), sol);
        lemma_place_all_coherent(s, list.drop_last());
        assert(list.last() == list[list.len() - 1]);
        if candidate(mid.cands, list.last().0, list.last().1) {
            lemma_place_sound(mid, list.last().0, list.last().1, sol);
        }
    }
}

/// Every cell with a single candidate holds that candidate in every
/// solution.
pub proof fn lemma_naked_singles_agree(s: State, sol: Seq<Value>, n: nat)
    requires
        coherent(s),
        solves(sol, s.grid),
        n <= 81,
    ensures
        agrees(naked_singles(s.cands, n), sol),
    decreases n,
{
    if n > 0 {
        lemma_naked_singles_agree(s, sol, (n - 1) as nat);
        let cell = (n - 1) as Index;
        if has_single(s.cands, cell) {
            let v = single_of(s.cands, cell);
            lemma_naked_single_sound(s, cell, v, sol);
        }
    }
}

/// Every value with a single place left in a unit is there in every
/// solution.
pub proof fn lemma_hidden_singles_agree(s: State, sol: Seq<Value>, n: nat)
    requires
        coherent(s),
        solves(sol, s.grid),
        n <= 243,
    ensures
        agrees(hidden_singles(s.cands, n), sol),
    decreases n,
{
    if n > 0 {
        lemma_hidden_singles_agree(s, sol, (n - 1) as nat);
        let value = ((n - 1) % 9 + 1) as Value;
        let unit = (n - 1) / 9;
        match hidden_in(s.cands, unit, value) {
            Some(cell) => {
                lemma_hidden_single_sound(s, unit, value, cell, sol);
            },
            None => {},
        }
    }
}

/// A full pass keeps the state coherent. It only ever fills cells and takes
/// candidates away, so the number of empty cells does not grow.
pub proof fn lemma_pass_coherent(s: State)
    requires
        coherent(s),
    ensures
        coherent(pass(s)),
        refines(s, pass(s)),
        remaining(pass(s)) <= remaining(s),
{
    let a = after_naked_singles(s);
    lemma_place_all_coherent(s, naked_singles(s.cands, 81));
    let b = after_hidden_singles(a);
    lemma_place_all_coherent(a, hidden_singles(a.cands, 243));
    lemma_overlays_coherent(b, 54);
    lemma_refines_transitive(s, a, b);
    lemma_refines_transitive(s, b, pass(s));
    lemma_refines_remaining(s, pass(s));
}

/// Every solution of the grid before a pass is a solution of the grid after
/// it: the rules never place a value that a solution does not have.
pub proof fn lemma_pass_sound(s: State, sol: Seq<Value>)
    requires
        coherent(s),
        solves(sol, s.grid),
    ensures
        solves(sol, pass(s).grid),
{
    let a = after_naked_singles(s);
    lemma_naked_singles_agree(s, sol, 81);
    lemma_place_all_sound(s, naked_singles(s.cands, 81), sol);
    lemma_place_all_coherent(s, naked_singles(s.cands, 81));
    lemma_hidden_singles_agree(a, sol, 243);
    lemma_place_all_sound(a, hidden_singles(a.cands, 243), sol);
}

/// A full pass never puts a value twice into a row, a column or a subsquare.
pub proof fn lemma_pass_consistent(s: State)
    requires
        coherent(s),
        consistent(s.grid),
    ensures
        consistent(pass(s).grid),
{
    let a = after_naked_singles(s);
    lemma_place_all_consistent(s, naked_singles(s.cands, 81));
    lemma_place_all_coherent(s, naked_singles(s.cands, 81));
    lemma_place_all_consistent(a, hidden_singles(a.cands, 243));
}

/// A pass that leaves the candidates as they were leaves the grid as it was:
/// nothing at all has changed, and nothing will in a further pass.
pub proof fn lemma_pass_fixed(s: State)
    requires
        coherent(s),
        pass(s).cands == s.cands,
    ensures
        pass(s) == s,
        pass(pass(s)) == s,
{
    lemma_pass_coherent(s);
    let t = pass(s);
    assert forall|c: int| 0 <= c < 81 implies t.grid[c] == s.grid[c] by {
        assert(s.cands.contains_key(c as Index) == t.cands.contains_key(c as Index));
        if s.grid[c] is Some {
        } else {
            assert(s.cands.contains_key(c as Index));
        }
    }
    assert(t.grid =~= s.grid);
}

/// Once no cell is empty, a pass changes nothing.
pub proof fn lemma_pass_fixed_when_solved(s: State)
    requires
        coherent(s),
        remaining(s) == 0,
    ensures
        pass(s) == s,
{
    lemma_pass_coherent(s);
    s.cands.dom().lemma_len0_is_empty();
    pass(s).cands.dom().lemma_len0_is_empty();
    assert(pass(s).cands =~= s.cands);
    lemma_pass_fixed(s);
}

/// A whole run keeps the state coherent, and only ever fills cells and
/// takes candidates away.
pub proof fn lemma_run_coherent(s: State)
    requires
        coherent(s),
    ensures
        coherent(run(s)),
        refines(s, run(s)),
        remaining(run(s)) <= remaining(s),
    decreases remaining(s),
{
    let t = pass(s);
    lemma_pass_coherent(s);
    if goes_on(s, t) {
        lemma_run_coherent(t);
        lemma_refines_transitive(s, t, run(t));
    }
}

/// A whole run never puts a value twice into a row, a column or a
/// subsquare.
pub proof fn lemma_run_consistent(s: State)
    requires
        coherent(s),
        consistent(s.grid),
    ensures
        consistent(run(s).grid),
    decreases remaining(s),
{
    let t = pass(s);
    lemma_pass_coherent(s);
    lemma_pass_consistent(s);
    if goes_on(s, t) {
        lemma_run_consistent(t);
    }
}

/// How a run ends: its last pass began in a state that the run had reached,
/// and either left no cell empty or filled none.
pub proof fn lemma_run_ends(s: State) -> (last: State)
    requires
        coherent(s),
    ensures
        coherent(last),
        refines(s, last),
        run(s) == pass(last),
        remaining(run(s)) == 0 || remaining(run(s)) == remaining(last),
    decreases remaining(s),
{
    let t = pass(s);
    lemma_pass_coherent(s);
    if goes_on(s, t) {
        let last = lemma_run_ends(t);
        lemma_refines_transitive(s, t, last);
        last
    } else {
        s
    }
}

/// Where the last pass of a run struck no candidate, the run has ended in a
/// state that a further pass leaves as it is.
pub proof fn lemma_run_fixed(s: State, last: State)
    requires
        coherent(last),
        run(s) == pass(last),
        pass(last).cands == last.cands,
    ensures
        pass(run(s)) == run(s),
{
    lemma_pass_fixed(last);
}

/// Every solution of the grid before a run is a solution of the grid after
/// it.
pub proof fn lemma_run_sound(s: State, sol: Seq<Value>)
    requires
        coherent(s),
        solves(sol, s.grid),
    ensures
        solves(sol, run(s).grid),
    decreases remaining(s),
{
    let t = pass(s);
    lemma_pass_coherent(s);
    lemma_pass_sound(s, sol);
    if goes_on(s, t) {
        lemma_run_sound(t, sol);
    }
}

} // verus!
