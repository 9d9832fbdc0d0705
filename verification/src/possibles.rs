//! The candidates of the empty cells: which values each of them may still
//! take, and, read the other way round, which cells may still take a value.
use std::collections::{HashMap, HashSet};
use vstd::prelude::*;

use crate::indices::{
    are_peers, column_cells, lemma_unit_cells_are_peers, row_cells, subsquare_cells, unit_cells,
    Indices,
};
use crate::{Data, DataCell, Index, Value};

verus! {

/// The mathematical model of the candidates: every cell that is still empty
/// is a key, and maps to the values it may still take.
pub type Candidates = Map<Index, Set<Value>>;

/// The cells that may still take `value`: the same relation as the
/// candidates, read from the value's side.
pub open spec fn by_value(m: Candidates, value: Value) -> Set<Index> {
    Set::new(|c: Index| m.contains_key(c) && m[c].contains(value))
}

/// Only cells of the grid are tracked, only finitely many, and their
/// candidates are values of the puzzle.
pub open spec fn bounded(m: Candidates) -> bool {
    &&& m.dom().finite()
    &&& forall|c: Index| m.contains_key(c) ==> c < 81
    &&& forall|c: Index, v: Value| m.contains_key(c) && #[trigger] m[c].contains(v) ==> 1 <= v <= 9
}

/// No cell of the grid that shares a row, a column or a subsquare with
/// `cell` holds `value`.
pub open spec fn free_among_peers(grid: Seq<DataCell>, cell: Index, value: Value) -> bool {
    forall|p: Index| #[trigger] are_peers(cell as int, p as int) ==> grid[p as int] != Some(value)
}

/// The candidates that a grid starts with: each empty cell may take every
/// value of `1..=9` that none of its peers holds.
pub open spec fn build(grid: Seq<DataCell>) -> Candidates {
    Map::new(
        |c: Index| c < 81 && grid[c as int] is None,
        |c: Index| Set::new(|v: Value| 1 <= v <= 9 && free_among_peers(grid, c, v)),
    )
}

/// The candidates once `value` is struck from `cell`. Nothing changes where
/// the cell is not tracked.
pub open spec fn eliminate(m: Candidates, cell: Index, value: Value) -> Candidates {
    if m.contains_key(cell) {
        m.insert(cell, m[cell].remove(value))
    } else {
        m
    }
}

/// `cell` is tracked and may still take `value`.
pub open spec fn candidate(m: Candidates, cell: Index, value: Value) -> bool {
    m.contains_key(cell) && m[cell].contains(value)
}

/// `value` is the one candidate left for `cell`.
pub open spec fn is_single(m: Candidates, cell: Index, value: Value) -> bool {
    m.contains_key(cell) && m[cell] =~= set![value]
}

/// `cell` has exactly one candidate left.
pub open spec fn has_single(m: Candidates, cell: Index) -> bool {
    exists|v: Value| is_single(m, cell, v)
}

/// The one candidate of a cell that [`has_single`].
pub open spec fn single_of(m: Candidates, cell: Index) -> Value {
    choose|v: Value| is_single(m, cell, v)
}

/// The cells among the first `n` that have exactly one candidate, each with
/// that candidate, in the order of the cells.
pub open spec fn naked_singles(m: Candidates, n: nat) -> Seq<(Index, Value)>
    decreases n,
{
    if n == 0 {
        Seq::empty()
    } else {
        let rest = naked_singles(m, (n - 1) as nat);
        let cell = (n - 1) as Index;
        if has_single(m, cell) {
            rest.push((cell, single_of(m, cell)))
        } else {
            rest
        }
    }
}

/// `value` is a candidate of some tracked cell among `cells`.
pub open spec fn occurs(m: Candidates, value: Value, cells: Set<Index>) -> bool {
    exists|c: Index| #[trigger] cells.contains(c) && m.contains_key(c) && m[c].contains(value)
}

/// The cells among `cells` that may still take `value`.
pub open spec fn restrict(m: Candidates, value: Value, cells: Set<Index>) -> Set<Index> {
    by_value(m, value).intersect(cells)
}

/// The cell that alone, among those of `unit`, may still take `value`, if
/// there is exactly one such cell.
pub open spec fn hidden_in(m: Candidates, unit: int, value: Value) -> Option<Index> {
    let cells = restrict(m, value, unit_cells(unit).to_set());
    if exists|c: Index| cells =~= set![c] {
        Some(choose|c: Index| cells =~= set![c])
    } else {
        None
    }
}

/// Unit and value are walked together: step `9 * unit + (value - 1)` looks
/// at `value` in `unit`. What the step finds: the cell that is the only
/// place left for the value in the unit, with the value.
pub open spec fn hidden_at(m: Candidates, step: int) -> Option<(Index, Value)> {
    let value = (step % 9 + 1) as Value;
    match hidden_in(m, step / 9, value) {
        Some(cell) => Some((cell, value)),
        None => None,
    }
}

/// What the first `n` steps find, in their order: see [`hidden_at`].
pub open spec fn hidden_singles(m: Candidates, n: nat) -> Seq<(Index, Value)>
    decreases n,
{
    if n == 0 {
        Seq::empty()
    } else {
        let rest = hidden_singles(m, (n - 1) as nat);
        match hidden_at(m, n - 1) {
            Some(found) => rest.push(found),
            None => rest,
        }
    }
}

/// The candidates once `value` is struck from every cell of `cells`.
pub open spec fn strike(m: Candidates, value: Value, cells: Set<Index>) -> Candidates {
    Map::new(
        |c: Index| m.contains_key(c),
        |c: Index|
            if cells.contains(c) {
                m[c].remove(value)
            } else {
                m[c]
            },
    )
}

/// Whether the locked-candidates rule, applied to a subsquare `sub` and a
/// line `other` that crosses it, takes `value` away from `cell`.
///
/// The value must be possible somewhere in the crossing. If it is possible
/// nowhere else on the line, the line needs it in the crossing, so it goes
/// from the rest of the subsquare. If it is possible nowhere else in the
/// subsquare, it goes from the rest of the line.
pub open spec fn purged(
    m: Candidates,
    sub: Set<Index>,
    other: Set<Index>,
    cell: Index,
    value: Value,
) -> bool {
    &&& occurs(m, value, sub.intersect(other))
    &&& {
        ||| sub.contains(cell) && !other.contains(cell) && !occurs(m, value, other.difference(sub))
        ||| other.contains(cell) && !sub.contains(cell) && !occurs(m, value, sub.difference(other))
    }
}

/// The candidates after the locked-candidates rule has been applied to one
/// subsquare and one line: every candidate that is [`purged`] is gone, the
/// others stay.
pub open spec fn overlay(m: Candidates, sub: Set<Index>, other: Set<Index>) -> Candidates {
    Map::new(
        |c: Index| m.contains_key(c),
        |c: Index| Set::new(|v: Value| m[c].contains(v) && !purged(m, sub, other, c, v)),
    )
}

/// The line of step `step` of a round of the locked-candidates rule: step
/// `6 * s + 2 * j` pairs subsquare `s` with the `j`-th row that crosses it,
/// step `6 * s + 2 * j + 1` with the `j`-th column.
pub open spec fn overlay_line(step: int) -> Seq<Index> {
    let s = step / 6;
    let j = (step % 6) / 2;
    if step % 2 == 0 {
        row_cells(3 * (s / 3) + j)
    } else {
        column_cells(3 * (s % 3) + j)
    }
}

/// One step of a round of the locked-candidates rule.
pub open spec fn overlay_step(m: Candidates, step: int) -> Candidates {
    overlay(m, subsquare_cells(step / 6).to_set(), overlay_line(step).to_set())
}

/// The candidates after the first `n` steps of a round of the
/// locked-candidates rule; a full round has 54.
pub open spec fn all_overlays(m: Candidates, n: nat) -> Candidates
    decreases n,
{
    if n == 0 {
        m
    } else {
        overlay_step(all_overlays(m, (n - 1) as nat), n - 1)
    }
}

/// The rule applied for the values below `n` only.
spec fn overlay_below(m: Candidates, sub: Set<Index>, other: Set<Index>, n: int) -> Candidates {
    Map::new(
        |c: Index| m.contains_key(c),
        |c: Index| Set::new(|v: Value| m[c].contains(v) && !(v < n && purged(m, sub, other, c, v))),
    )
}

/// The cells below `n` that lie in `sub` or not, and in `other` or not, as
/// asked.
spec fn split(sub: Set<Index>, other: Set<Index>, in_sub: bool, in_other: bool, n: int) -> Set<
    Index,
> {
    Set::new(|x: Index| x < n && sub.contains(x) == in_sub && other.contains(x) == in_other)
}

/// Only cells of the grid are tracked, so two sets of cells that agree on
/// the grid see the same values.
proof fn lemma_occurs_in_grid(m: Candidates, a: Set<Index>, b: Set<Index>)
    requires
        bounded(m),
        forall|c: Index| c < 81 ==> (a.contains(c) <==> b.contains(c)),
    ensures
        forall|v: Value| occurs(m, v, a) <==> occurs(m, v, b),
{
    assert forall|v: Value| occurs(m, v, a) <==> occurs(m, v, b) by {
        if occurs(m, v, a) {
            let c = choose|c: Index| #[trigger] a.contains(c) && m.contains_key(c) && m[c].contains(v);
            assert(b.contains(c));
        }
        if occurs(m, v, b) {
            let c = choose|c: Index| #[trigger] b.contains(c) && m.contains_key(c) && m[c].contains(v);
            assert(a.contains(c));
        }
    }
}

/// Where the table keeps whether `cell` may take `value`.
spec fn slot(cell: int, value: int) -> int {
    9 * cell + value - 1
}

/// Candidates of the empty cells of one grid.
#[derive(Debug)]
pub struct Possibles {
    open: [bool; 81],
    cand: [bool; 729],
}

impl View for Possibles {
    type V = Candidates;

    closed spec fn view(&self) -> Candidates {
        Map::new(
            |c: Index| c < 81 && self.open[c as int],
            |c: Index| Set::new(|v: Value| 1 <= v <= 9 && self.cand[slot(c as int, v as int)]),
        )
    }
}

impl Clone for Possibles {
    fn clone(&self) -> (r: Self)
        ensures
            r@ == self@,
    {
        Possibles { open: self.open, cand: self.cand }
    }
}

impl Possibles {
    /// The candidates of `data`: see [`build`].
    pub fn from_data(data: Data) -> (p: Possibles)
        ensures
            p@ == build(data@),
    {
        let mut open: [bool; 81] = [false; 81];
        let mut cand: [bool; 729] = [false; 729];
        for idx in 0..81usize
            invariant
                forall|c: int| 0 <= c < 81 ==> open[c] == (c < idx && data[c] is None),
                forall|c: Index, v: Value|
                    c < idx && data[c as int] is None && 1 <= v <= 9 ==> cand[slot(c as int, v as int)]
                        == free_among_peers(data@, c, v),
        {
            if data[idx].is_none() {
                open[idx] = true;
                let peers = Indices::around(idx);
                assert forall|j: int| 0 <= j < 20 implies #[trigger] peers[j] < 81 by {
                    assert(peers@.contains(peers[j]));
                }
                for k in 0..9usize
                    invariant
                        idx < 81,
                        cand.len() == 729,
                        forall|v: int| 1 <= v <= k ==> cand[slot(idx as int, v)],
                        forall|c: Index, v: Value|
                            c < idx && data[c as int] is None && 1 <= v <= 9 ==> cand[slot(
                                c as int,
                                v as int,
                            )] == free_among_peers(data@, c, v),
                {
                    cand[9 * idx + k] = true;
                    assert(9 * idx + k == slot(idx as int, k + 1));
                }
                for i in 0..20usize
                    invariant
                        idx < 81,
                        peers.len() == 20,
                        forall|j: int| 0 <= j < 20 ==> #[trigger] peers[j] < 81,
                        forall|other: Index| #[trigger]
                            peers@.contains(other) <==> are_peers(idx as int, other as int),
                        forall|v: Value|
                            1 <= v <= 9 ==> cand[slot(idx as int, v as int)] == (forall|j: int|
                                0 <= j < i ==> data[#[trigger] peers[j] as int] != Some(v)),
                        forall|c: Index, v: Value|
                            c < idx && data[c as int] is None && 1 <= v <= 9 ==> cand[slot(
                                c as int,
                                v as int,
                            )] == free_among_peers(data@, c, v),
                {
                    let oidx: usize = peers[i];
                    assert(peers@.contains(oidx));
                    if let Some(val) = data[oidx] {
                        if 1 <= val && val <= 9 {
                            cand[9 * idx + (val - 1) as usize] = false;
                            assert(9 * idx + (val - 1) == slot(idx as int, val as int));
                        }
                    }
                }
                proof {
                    assert forall|v: Value| 1 <= v <= 9 implies cand[slot(idx as int, v as int)]
                        == free_among_peers(data@, idx, v) by {
                        if cand[slot(idx as int, v as int)] {
                            assert forall|p: Index| #[trigger]
                                are_peers(idx as int, p as int) implies data[p as int] != Some(
                                v,
                            ) by {
                                assert(peers@.contains(p));
                                let j = choose|j: int| 0 <= j < 20 && peers@[j] == p;
                                assert(data[peers[j] as int] != Some(v));
                            }
                        } else {
                            let j = choose|j: int| 0 <= j < 20 && data[peers[j] as int] == Some(v);
                            assert(peers@.contains(peers[j]));
                            assert(are_peers(idx as int, peers[j] as int));
                        }
                    }
                }
            }
        }
        let p = Possibles { open, cand };
        assert(p@ =~~= build(data@));
        p
    }

    /// What is tracked is always [`bounded`].
    pub proof fn lemma_bounded(&self)
        ensures
            bounded(self@),
    {
        lemma_prefix_finite(self.open@, 81);
        assert(self@.dom() =~= prefix(self.open@, 81));
    }

    /// The number of cells that are still empty.
    pub fn len(&self) -> (n: usize)
        ensures
            n == self@.dom().len(),
            n <= 81,
    {
        let mut n: usize = 0;
        proof {
            lemma_prefix_finite(self.open@, 0);
        }
        for i in 0..81usize
            invariant
                n <= i,
                n == prefix(self.open@, i as int).len(),
        {
            proof {
                lemma_prefix_finite(self.open@, i as nat);
                if self.open[i as int] {
                    assert(prefix(self.open@, i + 1) =~= prefix(self.open@, i as int).insert(i));
                } else {
                    assert(prefix(self.open@, i + 1) =~= prefix(self.open@, i as int));
                }
            }
            if self.open[i] {
                n += 1;
            }
        }
        assert(self@.dom() =~= prefix(self.open@, 81));
        n
    }

    /// Stops tracking `index`: the cell has been given its value. A cell that
    /// is not tracked is left alone, so a second call changes nothing.
    pub fn remove(&mut self, index: &Index)
        ensures
            final(self)@ == old(self)@.remove(*index),
            final(self)@.dom().len() <= old(self)@.dom().len(),
    {
        if *index < 81 {
            self.open[*index] = false;
        }
        proof {
            assert(self@ =~~= old(self)@.remove(*index));
            old(self).lemma_bounded();
        }
    }

    /// Marks `index` as holding `value`: the cell is no longer tracked, and
    /// so no longer a place where `value`, or any other value, may go.
    pub fn set(&mut self, index: &Index, value: &Value)
        ensures
            final(self)@ == old(self)@.remove(*index),
            forall|v: Value| by_value(final(self)@, v) == by_value(old(self)@, v).remove(*index),
            final(self)@.dom().len() <= old(self)@.dom().len(),
    {
        self.remove(index);
        proof {
            assert forall|v: Value| by_value(self@, v) == by_value(old(self)@, v).remove(
                *index,
            ) by {
                assert(by_value(self@, v) =~= by_value(old(self)@, v).remove(*index));
            }
        }
    }

    /// Strikes `value` from the candidates of `index`: see [`eliminate`].
    /// Nothing changes where the cell is not tracked or the value is no
    /// candidate, so a second call changes nothing.
    pub fn update(&mut self, index: &Index, value: &Value)
        ensures
            final(self)@ == eliminate(old(self)@, *index, *value),
            final(self)@.dom() == old(self)@.dom(),
    {
        if *index < 81 && 1 <= *value && *value <= 9 {
            self.cand[9 * *index + (*value - 1) as usize] = false;
            assert(9 * *index + (*value - 1) == slot(*index as int, *value as int));
            assert forall|c: Index, v: Value| (c != *index || v != *value) && c < 81 && 1 <= v
                <= 9 implies slot(c as int, v as int) != slot(*index as int, *value as int) by {}
        }
        proof {
            assert(self@ =~~= eliminate(old(self)@, *index, *value));
            assert(self@.dom() =~= old(self)@.dom());
        }
    }

    /// The candidates, cell by cell: every empty cell with the values it
    /// may still take.
    pub fn by_cells(&self) -> (r: HashMap<Index, HashSet<Value>>)
        ensures
            r@.dom() == self@.dom(),
            forall|c: Index| #[trigger] r@.contains_key(c) ==> r@[c]@ == self@[c],
    {
        let mut out: HashMap<Index, HashSet<Value>> = HashMap::new();
        for c in 0..81usize
            invariant
                forall|x: Index| out@.contains_key(x) <==> x < c && self@.contains_key(x),
                forall|x: Index| #[trigger] out@.contains_key(x) ==> out@[x]@ == self@[x],
        {
            if self.open[c] {
                let mut values: HashSet<Value> = HashSet::new();
                for v in 1..10u8
                    invariant
                        c < 81,
                        forall|w: Value| values@.contains(w) <==> w < v && candidate(self@, c, w),
                {
                    if self.has(c, v) {
                        values.insert(v);
                    }
                }
                proof {
                    self.lemma_bounded();
                    assert forall|w: Value| self@[c].contains(w) implies values@.contains(w) by {
                        assert(candidate(self@, c, w));
                    }
                    assert(values@ =~= self@[c]);
                }
                out.insert(c, values);
            }
        }
        proof {
            self.lemma_bounded();
            assert(out@.dom() =~= self@.dom());
        }
        out
    }

    /// The candidates, value by value: each value of `1..=9` with the empty
    /// cells that may still take it.
    pub fn by_values(&self) -> (r: HashMap<Value, HashSet<Index>>)
        ensures
            forall|v: Value| r@.contains_key(v) <==> 1 <= v <= 9,
            forall|v: Value| #[trigger] r@.contains_key(v) ==> r@[v]@ == by_value(self@, v),
    {
        let mut out: HashMap<Value, HashSet<Index>> = HashMap::new();
        for v in 1..10u8
            invariant
                forall|w: Value| out@.contains_key(w) <==> 1 <= w < v,
                forall|w: Value| #[trigger] out@.contains_key(w) ==> out@[w]@ == by_value(self@, w),
        {
            let mut cells: HashSet<Index> = HashSet::new();
            for c in 0..81usize
                invariant
                    forall|x: Index| cells@.contains(x) <==> x < c && candidate(self@, x, v),
            {
                if self.has(c, v) {
                    cells.insert(c);
                }
            }
            proof {
                self.lemma_bounded();
                assert(cells@ =~= by_value(self@, v));
            }
            out.insert(v, cells);
        }
        out
    }

    /// Whether the cell `index` is empty and may still take `value`.
    pub fn has(&self, index: Index, value: Value) -> (b: bool)
        ensures
            b == candidate(self@, index, value),
    {
        index < 81 && 1 <= value && value <= 9 && self.open[index] && self.cand[9 * index + (value
            - 1) as usize]
    }

    /// The cells with exactly one candidate, each with that candidate, in the
    /// order of the cells.
    pub fn find_singles(&self) -> (r: Vec<(Index, Value)>)
        ensures
            r@ == naked_singles(self@, 81),
    {
        let mut r: Vec<(Index, Value)> = Vec::new();
        for c in 0..81usize
            invariant
                r@ == naked_singles(self@, c as nat),
        {
            let mut count: usize = 0;
            let mut found: Value = 0;
            let ghost mut second: Value = 0;
            for v in 1..10u8
                invariant
                    c < 81,
                    count <= 2,
                    count == 0 ==> forall|w: Value| 1 <= w < v ==> !candidate(self@, c, w),
                    count >= 1 ==> 1 <= found < v && candidate(self@, c, found),
                    count == 1 ==> forall|w: Value|
                        1 <= w < v && w != found ==> !candidate(self@, c, w),
                    count == 2 ==> 1 <= second < v && second != found && candidate(
                        self@,
                        c,
                        second,
                    ),
            {
                if self.has(c, v) {
                    if count == 0 {
                        found = v;
                        count = 1;
                    } else {
                        proof {
                            second = v;
                        }
                        count = 2;
                    }
                }
            }
            proof {
                self.lemma_bounded();
                reveal_with_fuel(naked_singles, 2);
                assert(forall|w: Value| candidate(self@, c, w) ==> 1 <= w < 10);
                if count == 1 {
                    assert forall|w: Value| self@[c].contains(w) implies w == found by {
                        assert(candidate(self@, c, w));
                    }
                    assert(self@[c] =~= set![found]);
                    assert(is_single(self@, c, found));
                    assert(single_of(self@, c) == found) by {
                        let w = single_of(self@, c);
                        assert(is_single(self@, c, w));
                        assert(set![w].contains(found));
                    }
                } else {
                    assert forall|w: Value| !is_single(self@, c, w) by {
                        if is_single(self@, c, w) {
                            assert(self@[c] == set![w]);
                            assert(set![w].contains(w));
                            assert(candidate(self@, c, w));
                            if count == 2 {
                                assert(!set![w].contains(found) || !set![w].contains(second));
                            }
                        }
                    }
                }
            }
            if count == 1 {
                r.push((c, found));
            }
        }
        r
    }

    /// For each value, the cells of `window` that may still take it. A value
    /// that no cell of `window` may take has no entry.
    pub fn window(&self, window: Vec<Index>) -> (r: HashMap<Value, HashSet<Index>>)
        ensures
            forall|v: Value| r@.contains_key(v) <==> occurs(self@, v, window@.to_set()),
            forall|v: Value| #[trigger]
                r@.contains_key(v) ==> r@[v]@ == restrict(self@, v, window@.to_set()),
    {
        let mut out: HashMap<Value, HashSet<Index>> = HashMap::new();
        for v in 1..10u8
            invariant
                forall|w: Value|
                    out@.contains_key(w) <==> w < v && occurs(self@, w, window@.to_set()),
                forall|w: Value| #[trigger]
                    out@.contains_key(w) ==> out@[w]@ == restrict(self@, w, window@.to_set()),
        {
            let mut cells: HashSet<Index> = HashSet::new();
            for i in 0..window.len()
                invariant
                    cells@ == restrict(self@, v, window@.take(i as int).to_set()),
            {
                let c: Index = window[i];
                if self.has(c, v) {
                    cells.insert(c);
                }
                proof {
                    let before = window@.take(i as int).to_set();
                    let after = window@.take(i + 1).to_set();
                    assert(window@.take(i + 1) =~= window@.take(i as int).push(c));
                    window@.take(i as int).lemma_push_to_set_commute(c);
                    assert(cells@ =~= restrict(self@, v, after));
                }
            }
            proof {
                self.lemma_bounded();
                assert(window@.take(window.len() as int) =~= window@);
                let all = restrict(self@, v, window@.to_set());
                if occurs(self@, v, window@.to_set()) {
                    let c = choose|c: Index| #[trigger]
                        window@.to_set().contains(c) && self@.contains_key(c) && self@[c].contains(
                            v,
                        );
                    assert(all.contains(c));
                } else {
                    assert(all =~= Set::empty());
                }
                if !all.is_empty() {
                    let c = choose|c: Index| all.contains(c);
                    assert(window@.to_set().contains(c));
                }
            }
            if !cells.is_empty() {
                out.insert(v, cells);
            }
        }
        proof {
            self.lemma_bounded();
            assert forall|v: Value| occurs(self@, v, window@.to_set()) implies v < 10 by {
                let c = choose|c: Index| #[trigger]
                    window@.to_set().contains(c) && self@.contains_key(c) && self@[c].contains(v);
            }
        }
        out
    }

    /// Unit `3 * i + kind`: row `i`, column `i` or subsquare `i`.
    fn unit(i: Index, kind: usize) -> (r: Vec<Index>)
        requires
            i < 9,
            kind < 3,
        ensures
            r@ == unit_cells(3 * i + kind),
    {
        if kind == 0 {
            Indices::row(i)
        } else if kind == 1 {
            Indices::column(i)
        } else {
            Indices::subsquare(i)
        }
    }

    /// The one member of `set`, looked for among `cells`.
    fn only_member(set: &HashSet<Index>, cells: &Vec<Index>) -> (c: Index)
        requires
            set@.finite(),
            set@.len() == 1,
            set@.subset_of(cells@.to_set()),
        ensures
            set@ =~= set![c],
    {
        proof {
            Set::lemma_is_singleton(set@);
        }
        let mut c: Index = 0;
        let ghost mut hit = false;
        for k in 0..cells.len()
            invariant
                hit ==> set@.contains(c),
                !hit ==> forall|j: int| 0 <= j < k ==> !set@.contains(#[trigger] cells[j]),
        {
            if set.contains(&cells[k]) {
                c = cells[k];
                proof {
                    hit = true;
                }
            }
        }
        proof {
            let x = set@.choose();
            assert(set@.contains(x));
            assert(cells@.to_set().contains(x));
        }
        c
    }

    /// For each unit in turn (row 0, column 0, subsquare 0, row 1, ..) and
    /// each value from 1 to 9, the cell that is the only one of the unit
    /// that may still take the value, with that value.
    pub fn find_single_values(&self) -> (r: Vec<(Index, Value)>)
        ensures
            r@ == hidden_singles(self@, 243),
    {
        let mut singles: Vec<(Index, Value)> = Vec::new();
        for i in 0..9usize
            invariant
                singles@ == hidden_singles(self@, (27 * i) as nat),
        {
            for kind in 0..3usize
                invariant
                    i < 9,
                    singles@ == hidden_singles(self@, (9 * (3 * i + kind)) as nat),
            {
                let cells = Possibles::unit(i, kind);
                let found = self.window(Possibles::unit(i, kind));
                for v in 1..10u8
                    invariant
                        i < 9,
                        kind < 3,
                        cells@ == unit_cells(3 * i + kind),
                        forall|w: Value|
                            found@.contains_key(w) <==> occurs(self@, w, cells@.to_set()),
                        forall|w: Value| #[trigger]
                            found@.contains_key(w) ==> found@[w]@ == restrict(
                                self@,
                                w,
                                cells@.to_set(),
                            ),
                        singles@ == hidden_singles(self@, (9 * (3 * i + kind) + v - 1) as nat),
                {
                    let ghost step = 9 * (3 * i + kind) + v - 1;
                    let ghost all = restrict(self@, v, cells@.to_set());
                    proof {
                        reveal_with_fuel(hidden_singles, 2);
                        assert(step / 9 == 3 * i + kind && step % 9 + 1 == v);
                        assert(all.finite());
                        assert forall|c: Index| all =~= set![c] implies all.len() == 1
                            && all.contains(c) by {
                            assert(set![c].contains(c));
                        }
                    }
                    match found.get(&v) {
                        Some(set) => {
                            assert(set@ == all);
                            if set.len() == 1 {
                                let cell = Possibles::only_member(set, &cells);
                                assert(hidden_in(self@, step / 9, v) == Some(cell)) by {
                                    let c = choose|c: Index| all =~= set![c];
                                    assert(set![c].contains(cell));
                                }
                                singles.push((cell, v));
                            } else {
                                assert(hidden_in(self@, step / 9, v) is None);
                            }
                        },
                        None => {
                            assert(hidden_in(self@, step / 9, v) is None) by {
                                assert forall|c: Index| !(all =~= set![c]) by {
                                    if all =~= set![c] {
                                        assert(cells@.to_set().contains(c));
                                    }
                                }
                            }
                        },
                    }
                }
            }
        }
        singles
    }

    /// Strikes `value` from every cell of `cells`.
    fn strike_all(&mut self, cells: &Vec<Index>, value: Value)
        ensures
            final(self)@ == strike(old(self)@, value, cells@.to_set()),
    {
        assert(self@ =~~= strike(old(self)@, value, cells@.take(0).to_set()));
        for i in 0..cells.len()
            invariant
                self@ == strike(old(self)@, value, cells@.take(i as int).to_set()),
        {
            let ghost before = self@;
            self.update(&cells[i], &value);
            proof {
                cells@.take(i as int).lemma_push_to_set_commute(cells[i as int]);
                assert(cells@.take(i + 1) =~= cells@.take(i as int).push(cells[i as int]));
                assert(self@ =~~= strike(old(self)@, value, cells@.take(i + 1).to_set()));
            }
        }
        assert(cells@.take(cells.len() as int) =~= cells@);
    }

    /// The cells of a list, as a set.
    fn cell_set(cells: &Vec<Index>) -> (r: HashSet<Index>)
        ensures
            r@ == cells@.to_set(),
    {
        let mut r: HashSet<Index> = HashSet::new();
        assert(r@ =~= cells@.take(0).to_set());
        for i in 0..cells.len()
            invariant
                r@ == cells@.take(i as int).to_set(),
        {
            r.insert(cells[i]);
            proof {
                cells@.take(i as int).lemma_push_to_set_commute(cells[i as int]);
                assert(cells@.take(i + 1) =~= cells@.take(i as int).push(cells[i as int]));
            }
        }
        assert(cells@.take(cells.len() as int) =~= cells@);
        r
    }

    /// Applies the locked-candidates rule to a subsquare and a line that
    /// crosses it: see [`overlay`]. Candidates are only ever taken away.
    pub fn find_overlays(&mut self, subsquare_idxs: &HashSet<Index>, other_idxs: HashSet<Index>)
        ensures
            final(self)@ == overlay(old(self)@, subsquare_idxs@, other_idxs@),
            final(self)@.dom() == old(self)@.dom(),
    {
        let ghost sub = subsquare_idxs@;
        let ghost other = other_idxs@;
        let ghost m = self@;
        let mut inner: Vec<Index> = Vec::new();
        let mut outer_subsquare: Vec<Index> = Vec::new();
        let mut outer_other: Vec<Index> = Vec::new();
        proof {
            assert(inner@.to_set() =~= split(sub, other, true, true, 0));
            assert(outer_subsquare@.to_set() =~= split(sub, other, true, false, 0));
            assert(outer_other@.to_set() =~= split(sub, other, false, true, 0));
        }
        for c in 0..81usize
            invariant
                sub == subsquare_idxs@,
                other == other_idxs@,
                inner@.to_set() == split(sub, other, true, true, c as int),
                outer_subsquare@.to_set() == split(sub, other, true, false, c as int),
                outer_other@.to_set() == split(sub, other, false, true, c as int),
        {
            let in_subsquare = subsquare_idxs.contains(&c);
            let in_other = other_idxs.contains(&c);
            proof {
                inner@.lemma_push_to_set_commute(c);
                outer_subsquare@.lemma_push_to_set_commute(c);
                outer_other@.lemma_push_to_set_commute(c);
            }
            if in_subsquare && in_other {
                inner.push(c);
            } else if in_subsquare {
                outer_subsquare.push(c);
            } else if in_other {
                outer_other.push(c);
            }
            proof {
                assert(inner@.to_set() =~= split(sub, other, true, true, c + 1));
                assert(outer_subsquare@.to_set() =~= split(sub, other, true, false, c + 1));
                assert(outer_other@.to_set() =~= split(sub, other, false, true, c + 1));
            }
        }
        let vals_inner = self.window(inner);
        let outer_subsquare_cells = outer_subsquare.clone();
        let outer_other_cells = outer_other.clone();
        assert(outer_subsquare_cells@ =~= outer_subsquare@);
        assert(outer_other_cells@ =~= outer_other@);
        let vals_outer_subsquare = self.window(outer_subsquare_cells);
        let vals_outer_other = self.window(outer_other_cells);
        proof {
            self.lemma_bounded();
            lemma_occurs_in_grid(m, sub.intersect(other), split(sub, other, true, true, 81));
            lemma_occurs_in_grid(m, sub.difference(other), split(sub, other, true, false, 81));
            lemma_occurs_in_grid(m, other.difference(sub), split(sub, other, false, true, 81));
            assert(self@ =~~= overlay_below(m, sub, other, 1));
        }
        for v in 1..10u8
            invariant
                bounded(m),
                sub == subsquare_idxs@,
                other == other_idxs@,
                outer_subsquare@.to_set() == split(sub, other, true, false, 81),
                outer_other@.to_set() == split(sub, other, false, true, 81),
                forall|w: Value|
                    vals_inner@.contains_key(w) <==> occurs(m, w, sub.intersect(other)),
                forall|w: Value|
                    vals_outer_subsquare@.contains_key(w) <==> occurs(m, w, sub.difference(other)),
                forall|w: Value|
                    vals_outer_other@.contains_key(w) <==> occurs(m, w, other.difference(sub)),
                self@ == overlay_below(m, sub, other, v as int),
        {
            let ghost before = self@;
            if vals_inner.contains_key(&v) {
                let outer_subsquare_has_val = vals_outer_subsquare.contains_key(&v);
                let outer_other_has_val = vals_outer_other.contains_key(&v);
                if !outer_other_has_val {
                    self.strike_all(&outer_subsquare, v);
                }
                if !outer_subsquare_has_val {
                    self.strike_all(&outer_other, v);
                }
            }
            proof {
                assert(self@ =~~= overlay_below(m, sub, other, v + 1));
            }
        }
        assert(self@ =~~= overlay(m, sub, other));
        assert(self@.dom() =~= m.dom());
    }

    /// One round of the locked-candidates rule: each subsquare in turn is
    /// held against the three rows and the three columns that cross it, row
    /// and column alternating. See [`all_overlays`].
    pub fn remove_overlays(&mut self)
        ensures
            final(self)@ == all_overlays(old(self)@, 54),
            final(self)@.dom() == old(self)@.dom(),
    {
        for subsquare_id in 0..9usize
            invariant
                self@ == all_overlays(old(self)@, (6 * subsquare_id) as nat),
                self@.dom() == old(self)@.dom(),
        {
            let subsquare_idxs = Possibles::cell_set(&Indices::subsquare(subsquare_id));
            let super_row: usize = subsquare_id / 3;
            let super_column: usize = subsquare_id % 3;
            for row_id in 0..3usize
                invariant
                    subsquare_id < 9,
                    super_row == subsquare_id / 3,
                    super_column == subsquare_id % 3,
                    subsquare_idxs@ == subsquare_cells(subsquare_id as int).to_set(),
                    self@ == all_overlays(old(self)@, (6 * subsquare_id + 2 * row_id) as nat),
                    self@.dom() == old(self)@.dom(),
            {
                let ghost step = 6 * subsquare_id + 2 * row_id;
                proof {
                    reveal_with_fuel(all_overlays, 3);
                    assert(step / 6 == subsquare_id && (step % 6) / 2 == row_id && step % 2 == 0);
                    assert((step + 1) / 6 == subsquare_id && ((step + 1) % 6) / 2 == row_id && (
                    step + 1) % 2 == 1);
                }
                let row_ids = Possibles::cell_set(&Indices::row(3 * super_row + row_id));
                self.find_overlays(&subsquare_idxs, row_ids);
                let column_ids = Possibles::cell_set(&Indices::column(3 * super_column + row_id));
                self.find_overlays(&subsquare_idxs, column_ids);
            }
        }
    }
}

/// The two readings of the candidates agree: a value is a candidate of a
/// tracked cell exactly if the cell is among the cells of the value.
pub proof fn lemma_by_value_mirrors(m: Candidates, cell: Index, value: Value)
    requires
        m.contains_key(cell),
    ensures
        m[cell].contains(value) <==> by_value(m, value).contains(cell),
{
}

/// Striking a candidate a second time changes nothing.
pub proof fn lemma_eliminate_idempotent(m: Candidates, cell: Index, value: Value)
    ensures
        eliminate(eliminate(m, cell, value), cell, value) == eliminate(m, cell, value),
{
    assert(eliminate(eliminate(m, cell, value), cell, value) =~~= eliminate(m, cell, value));
}

/// Striking a candidate from a cell that is not tracked, or that has not
/// got it, changes nothing.
pub proof fn lemma_eliminate_absent(m: Candidates, cell: Index, value: Value)
    requires
        !candidate(m, cell, value),
    ensures
        eliminate(m, cell, value) == m,
{
    assert(eliminate(m, cell, value) =~~= m);
}

/// Striking two candidates comes to the same in either order.
pub proof fn lemma_eliminate_commutes(m: Candidates, a: Index, v: Value, b: Index, w: Value)
    ensures
        eliminate(eliminate(m, a, v), b, w) == eliminate(eliminate(m, b, w), a, v),
{
    assert(eliminate(eliminate(m, a, v), b, w) =~~= eliminate(eliminate(m, b, w), a, v));
}

/// A cell that is no longer tracked stays so: to stop tracking it again
/// changes nothing.
pub proof fn lemma_remove_idempotent(m: Candidates, cell: Index)
    ensures
        m.remove(cell).remove(cell) == m.remove(cell),
        !m.contains_key(cell) ==> m.remove(cell) == m,
{
    assert(m.remove(cell).remove(cell) =~= m.remove(cell));
    if !m.contains_key(cell) {
        assert(m.remove(cell) =~= m);
    }
}

/// Every listed naked single is a cell of the grid with exactly that one
/// candidate, the cells are listed in rising order, and none is left out.
pub proof fn lemma_naked_singles(m: Candidates, n: nat)
    requires
        n <= 81,
    ensures
        forall|k: int|
            0 <= k < naked_singles(m, n).len() ==> (#[trigger] naked_singles(m, n)[k]).0 < n
                && is_single(m, naked_singles(m, n)[k].0, naked_singles(m, n)[k].1),
        forall|j: int, k: int|
            0 <= j < k < naked_singles(m, n).len() ==> (#[trigger] naked_singles(m, n)[j]).0 < (
            #[trigger] naked_singles(m, n)[k]).0,
        forall|c: Index, v: Value|
            c < n && is_single(m, c, v) ==> naked_singles(m, n).contains((c, v)),
    decreases n,
{
    if n > 0 {
        let rest = naked_singles(m, (n - 1) as nat);
        lemma_naked_singles(m, (n - 1) as nat);
        let cell = (n - 1) as Index;
        let all = naked_singles(m, n);
        assert forall|k: int| 0 <= k < all.len() implies (#[trigger] all[k]).0 < n && is_single(
            m,
            all[k].0,
            all[k].1,
        ) by {
            if k < rest.len() {
                assert(all[k] == rest[k]);
            } else {
                assert(is_single(m, cell, single_of(m, cell)));
            }
        }
        assert forall|j: int, k: int| 0 <= j < k < all.len() implies (#[trigger] all[j]).0 < (
        #[trigger] all[k]).0 by {
            assert(all[j] == rest[j]);
            if k < rest.len() {
                assert(all[k] == rest[k]);
            }
        }
        assert forall|c: Index, v: Value| c < n && is_single(m, c, v) implies all.contains(
            (c, v),
        ) by {
            if c < n - 1 {
                assert(rest.contains((c, v)));
                let k = choose|k: int| 0 <= k < rest.len() && rest[k] == (c, v);
                assert(all[k] == (c, v));
            } else {
                let w = single_of(m, cell);
                assert(is_single(m, cell, w));
                assert(set![w].contains(v));
                assert(all[all.len() - 1] == (c, v));
            }
        }
    }
}

/// Every listed hidden single is a cell of the grid that is the only place
/// left for its value in some unit, and every such place is listed, once for
/// each unit that it is the only place in.
pub proof fn lemma_hidden_singles(m: Candidates, n: nat)
    requires
        n <= 243,
    ensures
        forall|k: int|
            0 <= k < hidden_singles(m, n).len() ==> (#[trigger] hidden_singles(m, n)[k]).0 < 81
                && 1 <= hidden_singles(m, n)[k].1 <= 9 && exists|step: int|
                0 <= step < n && hidden_at(m, step) == Some(hidden_singles(m, n)[k]),
        forall|step: int|
            0 <= step < n && (#[trigger] hidden_at(m, step)) is Some ==> hidden_singles(
                m,
                n,
            ).contains(hidden_at(m, step)->0),
    decreases n,
{
    if n > 0 {
        let rest = hidden_singles(m, (n - 1) as nat);
        let all = hidden_singles(m, n);
        lemma_hidden_singles(m, (n - 1) as nat);
        let value = ((n - 1) % 9 + 1) as Value;
        let unit = (n - 1) / 9;
        match hidden_in(m, unit, value) {
            Some(cell) => {
                let cells = restrict(m, value, unit_cells(unit).to_set());
                assert(cells =~= set![cell]);
                assert(set![cell].contains(cell));
                assert(unit_cells(unit).to_set().contains(cell));
                let j = choose|j: int| 0 <= j < 9 && unit_cells(unit)[j] == cell;
                lemma_unit_cells_are_peers(unit, j, j);
                assert(hidden_at(m, n - 1) == Some((cell, value)));
                assert(all[all.len() - 1] == (cell, value));
            },
            None => {},
        }
        assert forall|k: int| 0 <= k < all.len() implies (#[trigger] all[k]).0 < 81 && 1
            <= all[k].1 <= 9 && exists|step: int|
            0 <= step < n && hidden_at(m, step) == Some(all[k]) by {
            if k < rest.len() {
                assert(all[k] == rest[k]);
                let step = choose|step: int|
                    0 <= step < n - 1 && hidden_at(m, step) == Some(rest[k]);
                assert(0 <= step < n && hidden_at(m, step) == Some(all[k]));
            } else {
                assert(hidden_at(m, n - 1) == Some(all[k]));
            }
        }
        assert forall|step: int| 0 <= step < n && (#[trigger] hidden_at(m, step)) is Some implies all.contains(
            hidden_at(m, step)->0,
        ) by {
            if step < n - 1 {
                assert(rest.contains(hidden_at(m, step)->0));
                let k = choose|k: int| 0 <= k < rest.len() && rest[k] == hidden_at(m, step)->0;
                assert(all[k] == rest[k]);
            } else {
                assert(all[all.len() - 1] == hidden_at(m, step)->0);
            }
        }
    }
}

/// The empty cells among the first `n`.
spec fn prefix(open: Seq<bool>, n: int) -> Set<Index> {
    Set::new(|c: Index| c < n && c < open.len() && open[c as int])
}

proof fn lemma_prefix_finite(open: Seq<bool>, n: nat)
    ensures
        prefix(open, n as int).finite(),
        prefix(open, n as int).len() <= n,
    decreases n,
{
    if n == 0 {
        assert(prefix(open, 0) =~= Set::empty());
    } else {
        lemma_prefix_finite(open, (n - 1) as nat);
        let c = (n - 1) as Index;
        if n - 1 <= usize::MAX && n - 1 < open.len() && open[n - 1] {
            assert(prefix(open, n as int) =~= prefix(open, n - 1).insert(c));
        } else {
            assert(prefix(open, n as int) =~= prefix(open, n - 1));
        }
    }
}

} // verus!
