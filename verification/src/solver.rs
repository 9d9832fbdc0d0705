//! The solver: a grid, the candidates of its empty cells, and the loop that
//! applies the deduction rules until a pass fills no further cell.
use vstd::prelude::*;

use crate::indices::Indices;
use crate::laws::{
    lemma_build_coherent, lemma_candidate_fits, lemma_hidden_singles_agree,
    lemma_naked_singles_agree, lemma_overlays_coherent, lemma_pass_coherent,
    lemma_place_all_coherent, lemma_place_all_consistent, lemma_place_all_sound,
    lemma_place_coherent, lemma_refines_remaining, lemma_run_coherent, lemma_run_consistent,
    lemma_run_sound,
};
use crate::possibles::{
    build, candidate, hidden_singles, lemma_hidden_singles, lemma_naked_singles, naked_singles,
    strike, Possibles,
};
use crate::state::{
    after_hidden_singles, after_naked_singles, after_overlays, coherent, consistent, goes_on,
    pass, peer_set, place, place_all, placed_all, placed_in_pass, refines, remaining, run, solves,
    State,
};
use crate::{Data, DataCell, Index, Value};

verus! {

/// How a run ended.
#[derive(Debug, Clone, Copy, PartialEq, Eq)]
pub enum Status {
    /// Every cell holds a value.
    Solved,
    /// Cells are left that the rules cannot decide.
    Stuck,
}

/// What one full pass has done.
#[derive(Debug)]
pub struct PassReport {
    /// The values that the pass has placed, each with its cell, in the order
    /// of placement.
    pub placed: Vec<(Index, Value)>,
    /// Whether the run goes on: cells are left, and the pass has filled at
    /// least one.
    pub more: bool,
}

/// A puzzle being solved.
pub struct Solver {
    initial_data: Data,
    data: Data,
    possibles: Possibles,
}

impl View for Solver {
    type V = State;

    closed spec fn view(&self) -> State {
        State { grid: self.data@, cands: self.possibles@ }
    }
}

/// Writes `value` into the cell `index` of `data` and strikes it from the
/// candidates of the cell's peers, unless the cell holds a value already.
fn place_in(data: &mut Data, possibles: &mut Possibles, index: Index, value: Value)
    requires
        index < 81,
    ensures
        (State { grid: final(data)@, cands: final(possibles)@ }) == place(
            State { grid: old(data)@, cands: old(possibles)@ },
            index,
            value,
        ),
{
    if data[index].is_some() {
        return ;
    }
    data[index] = Some(value);
    possibles.remove(&index);
    let peers = Indices::around(index);
    let ghost base = possibles@;
    assert(possibles@ =~~= strike(base, value, peers@.take(0).to_set()));
    for i in 0..peers.len()
        invariant
            possibles@ == strike(base, value, peers@.take(i as int).to_set()),
    {
        possibles.update(&peers[i], &value);
        proof {
            peers@.take(i as int).lemma_push_to_set_commute(peers[i as int]);
            assert(peers@.take(i + 1) =~= peers@.take(i as int).push(peers[i as int]));
            assert(possibles@ =~~= strike(base, value, peers@.take(i + 1).to_set()));
        }
    }
    proof {
        assert(peers@.take(peers.len() as int) =~= peers@);
        assert(peers@.to_set() =~= peer_set(index));
    }
}

/// Goes through the entries of `list`, first to last, and places each whose
/// cell may still take its value when its turn comes. Returns what it has
/// placed.
fn place_list_in(data: &mut Data, possibles: &mut Possibles, list: &Vec<(Index, Value)>) -> (placed:
    Vec<(Index, Value)>)
    requires
        forall|k: int| 0 <= k < list.len() ==> (#[trigger] list[k]).0 < 81,
    ensures
        (State { grid: final(data)@, cands: final(possibles)@ }) == place_all(
            State { grid: old(data)@, cands: old(possibles)@ },
            list@,
        ),
        placed@ == placed_all(State { grid: old(data)@, cands: old(possibles)@ }, list@),
{
    let ghost start = State { grid: data@, cands: possibles@ };
    let mut placed: Vec<(Index, Value)> = Vec::new();
    for i in 0..list.len()
        invariant
            forall|k: int| 0 <= k < list.len() ==> (#[trigger] list[k]).0 < 81,
            (State { grid: data@, cands: possibles@ }) == place_all(start, list@.take(i as int)),
            placed@ == placed_all(start, list@.take(i as int)),
    {
        let (index, value) = list[i];
        proof {
            assert(list@.take(i + 1).drop_last() =~= list@.take(i as int));
            assert(list@.take(i + 1).last() == list[i as int]);
        }
        if possibles.has(index, value) {
            if data[index].is_none() {
                placed.push((index, value));
            }
            place_in(data, possibles, index, value);
        }
    }
    assert(list@.take(list.len() as int) =~= list@);
    placed
}

impl Solver {
    /// The grid that the solver was made with.
    pub closed spec fn initial(&self) -> Seq<DataCell> {
        self.initial_data@
    }

    /// The grid and the candidates belong together: the state is always
    /// [`coherent`].
    #[verifier::type_invariant]
    spec fn inv(&self) -> bool {
        coherent(self@)
    }

    /// A solver for the puzzle `data`, with the candidates that `data`
    /// leaves.
    pub fn new(data: Data) -> (s: Solver)
        ensures
            s@ == (State { grid: data@, cands: build(data@) }),
            s.initial() == data@,
            coherent(s@),
    {
        let initial_data = data;
        let possibles = Possibles::from_data(data);
        proof {
            lemma_build_coherent(data@);
        }
        Solver { initial_data, data, possibles }
    }

    /// A copy of the solver in its present state.
    pub fn clone(&self) -> (s: Solver)
        ensures
            s@ == self@,
            s.initial() == self.initial(),
            coherent(s@),
    {
        proof {
            use_type_invariant(self);
        }
        Solver {
            initial_data: self.initial_data,
            data: self.data,
            possibles: self.possibles.clone(),
        }
    }

    /// The grid that the solver was made with.
    pub fn initial_data(&self) -> (d: &Data)
        ensures
            d@ == self.initial(),
    {
        &self.initial_data
    }

    /// The grid as it is now.
    pub fn data(&self) -> (d: &Data)
        ensures
            d@ == self@.grid,
    {
        &self.data
    }

    /// The candidates of the cells that are still empty.
    pub fn possibles(&self) -> (p: &Possibles)
        ensures
            p@ == self@.cands,
    {
        &self.possibles
    }

    /// Writes `value` into the cell `index` and strikes it from the
    /// candidates of the cell's peers: see [`place`]. A cell that already
    /// holds a value is left alone.
    pub fn update(&mut self, index: Index, value: Value)
        requires
            index < 81,
        ensures
            final(self)@ == place(old(self)@, index, value),
            final(self).initial() == old(self).initial(),
            coherent(final(self)@),
            refines(old(self)@, final(self)@),
            remaining(final(self)@) <= remaining(old(self)@),
            candidate(old(self)@.cands, index, value) && consistent(old(self)@.grid)
                ==> consistent(final(self)@.grid),
    {
        proof {
            use_type_invariant(&*self);
            lemma_place_coherent(self@, index, value);
            if candidate(self@.cands, index, value) {
                lemma_candidate_fits(self@, index, value);
            }
        }
        let mut data = self.data;
        let mut possibles = self.possibles.clone();
        place_in(&mut data, &mut possibles, index, value);
        *self = Solver { initial_data: self.initial_data, data, possibles };
    }

    /// Fills every cell that has a single candidate with it. The cells are
    /// listed as they stand when the pass begins, in the order of the grid;
    /// a cell whose candidate has been struck by the time its turn comes is
    /// left empty. Returns what has been placed.
    pub fn remove_single_possibles(&mut self) -> (placed: Vec<(Index, Value)>)
        ensures
            final(self)@ == after_naked_singles(old(self)@),
            placed@ == placed_all(old(self)@, naked_singles(old(self)@.cands, 81)),
            final(self).initial() == old(self).initial(),
            coherent(final(self)@),
            refines(old(self)@, final(self)@),
            remaining(final(self)@) <= remaining(old(self)@),
            consistent(old(self)@.grid) ==> consistent(final(self)@.grid),
            forall|sol: Seq<Value>| #[trigger]
                solves(sol, old(self)@.grid) ==> solves(sol, final(self)@.grid),
    {
        let singles = self.possibles.find_singles();
        proof {
            use_type_invariant(&*self);
            lemma_naked_singles(self@.cands, 81);
        }
        self.place_list(&singles)
    }

    /// Puts every value that has a single place left in some row, column or
    /// subsquare into that place. The places are listed as they stand when
    /// the pass begins; a place whose cell may no longer take the value when
    /// its turn comes is passed over. Returns what has been placed.
    pub fn remove_single_values(&mut self) -> (placed: Vec<(Index, Value)>)
        ensures
            final(self)@ == after_hidden_singles(old(self)@),
            placed@ == placed_all(old(self)@, hidden_singles(old(self)@.cands, 243)),
            final(self).initial() == old(self).initial(),
            coherent(final(self)@),
            refines(old(self)@, final(self)@),
            remaining(final(self)@) <= remaining(old(self)@),
            consistent(old(self)@.grid) ==> consistent(final(self)@.grid),
            forall|sol: Seq<Value>| #[trigger]
                solves(sol, old(self)@.grid) ==> solves(sol, final(self)@.grid),
    {
        let singles = self.possibles.find_single_values();
        proof {
            use_type_invariant(&*self);
            lemma_hidden_singles(self@.cands, 243);
        }
        self.place_list(&singles)
    }

    /// Goes through a list of singles that was taken from the present
    /// state.
    fn place_list(&mut self, list: &Vec<(Index, Value)>) -> (placed: Vec<(Index, Value)>)
        requires
            forall|k: int| 0 <= k < list.len() ==> (#[trigger] list[k]).0 < 81,
            list@ == naked_singles(old(self)@.cands, 81) || list@ == hidden_singles(
                old(self)@.cands,
                243,
            ),
        ensures
            final(self)@ == place_all(old(self)@, list@),
            placed@ == placed_all(old(self)@, list@),
            final(self).initial() == old(self).initial(),
            coherent(final(self)@),
            refines(old(self)@, final(self)@),
            remaining(final(self)@) <= remaining(old(self)@),
            consistent(old(self)@.grid) ==> consistent(final(self)@.grid),
            forall|sol: Seq<Value>| #[trigger]
                solves(sol, old(self)@.grid) ==> solves(sol, final(self)@.grid),
    {
        proof {
            use_type_invariant(&*self);
            lemma_place_all_coherent(self@, list@);
            lemma_refines_remaining(self@, place_all(self@, list@));
            if consistent(self@.grid) {
                lemma_place_all_consistent(self@, list@);
            }
            assert forall|sol: Seq<Value>| #[trigger] solves(sol, self@.grid) implies solves(
                sol,
                place_all(self@, list@).grid,
            ) by {
                if list@ == naked_singles(self@.cands, 81) {
                    lemma_naked_singles_agree(self@, sol, 81);
                } else {
                    lemma_hidden_singles_agree(self@, sol, 243);
                }
                lemma_place_all_sound(self@, list@, sol);
            }
        }
        let mut data = self.data;
        let mut possibles = self.possibles.clone();
        let placed = place_list_in(&mut data, &mut possibles, list);
        *self = Solver { initial_data: self.initial_data, data, possibles };
        placed
    }

    /// One round of the locked-candidates rule on the candidates. The grid
    /// stays as it is, and so do the cells that are tracked.
    pub fn remove_overlays(&mut self)
        ensures
            final(self)@ == after_overlays(old(self)@),
            final(self).initial() == old(self).initial(),
            coherent(final(self)@),
            refines(old(self)@, final(self)@),
            remaining(final(self)@) == remaining(old(self)@),
    {
        proof {
            use_type_invariant(&*self);
            lemma_overlays_coherent(self@, 54);
        }
        let mut possibles = self.possibles.clone();
        possibles.remove_overlays();
        *self = Solver { initial_data: self.initial_data, data: self.data, possibles };
    }

    /// One full pass: the three rules, one after the other. Tells what has
    /// been placed and whether the run goes on: see [`pass`] and
    /// [`goes_on`].
    pub fn step(&mut self) -> (r: PassReport)
        ensures
            final(self)@ == pass(old(self)@),
            r.placed@ == placed_in_pass(old(self)@),
            r.more == goes_on(old(self)@, final(self)@),
            final(self).initial() == old(self).initial(),
            coherent(final(self)@),
            refines(old(self)@, final(self)@),
            remaining(final(self)@) <= remaining(old(self)@),
            consistent(old(self)@.grid) ==> consistent(final(self)@.grid),
            forall|sol: Seq<Value>| #[trigger]
                solves(sol, old(self)@.grid) ==> solves(sol, final(self)@.grid),
    {
        proof {
            use_type_invariant(&*self);
            lemma_pass_coherent(self@);
        }
        let count: usize = self.possibles.len();
        let mut placed = self.remove_single_possibles();
        let mut second = self.remove_single_values();
        placed.append(&mut second);
        self.remove_overlays();
        let left: usize = self.possibles.len();
        PassReport { placed, more: left != 0 && left != count }
    }

    /// Applies the three rules, pass after pass, until a pass fills no cell
    /// or no cell is left: see [`run`].
    ///
    /// The result tells whether every cell now holds a value. No value is
    /// ever guessed: whatever solves the puzzle before the call solves it
    /// after. And no value is put where a peer holds it: a grid without a
    /// value twice in a unit stays so.
    pub fn solve(&mut self) -> (status: Status)
        ensures
            final(self)@ == run(old(self)@),
            final(self).initial() == old(self).initial(),
            coherent(final(self)@),
            refines(old(self)@, final(self)@),
            remaining(final(self)@) <= remaining(old(self)@),
            status is Solved <==> remaining(final(self)@) == 0,
            status is Solved <==> forall|c: int| 0 <= c < 81 ==> final(self)@.grid[c] is Some,
            consistent(old(self)@.grid) ==> consistent(final(self)@.grid),
            forall|sol: Seq<Value>| #[trigger]
                solves(sol, old(self)@.grid) ==> solves(sol, final(self)@.grid),
    {
        proof {
            use_type_invariant(&*self);
        }
        loop
            invariant_except_break
                run(self@) == run(old(self)@),
            invariant
                coherent(self@),
                self.initial() == old(self).initial(),
            ensures
                self@ == run(old(self)@),
            decreases remaining(self@),
        {
            let report = self.step();
            if !report.more {
                break ;
            }
        }
        let status = if self.possibles.len() == 0 {
            Status::Solved
        } else {
            Status::Stuck
        };
        proof {
            lemma_run_coherent(old(self)@);
            if consistent(old(self)@.grid) {
                lemma_run_consistent(old(self)@);
            }
            assert forall|sol: Seq<Value>| #[trigger] solves(sol, old(self)@.grid) implies solves(
                sol,
                self@.grid,
            ) by {
                lemma_run_sound(old(self)@, sol);
            }
            if remaining(self@) == 0 {
                self@.cands.dom().lemma_len0_is_empty();
                assert forall|c: int| 0 <= c < 81 implies self@.grid[c] is Some by {
                    assert(!self@.cands.contains_key(c as Index));
                }
            } else {
                if forall|c: Index| !self@.cands.contains_key(c) {
                    assert(self@.cands.dom() =~= Set::empty());
                }
                let c = choose|c: Index| self@.cands.contains_key(c);
                assert(self@.grid[c as int] is None);
            }
        }
        status
    }
}

} // verus!
