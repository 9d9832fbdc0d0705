//! The candidates as ordered lists, for reading and printing.
use std::collections::HashSet;
use vstd::prelude::*;
use vstd::std_specs::iter::IteratorSpec;

use crate::possibles::{by_value, Possibles};
use crate::{Index, Value};

verus! {

/// Each number is smaller than the next.
pub open spec fn rising(s: Seq<usize>) -> bool {
    forall|i: int, j: int| 0 <= i < j < s.len() ==> s[i] < s[j]
}

/// `itertools::sorted` on a list of numbers, collected into a list again:
/// the same numbers, each as often as before, none greater than the next.
#[verifier::external_body]
fn sorted_numbers(items: Vec<usize>) -> (r: Vec<usize>)
    ensures
        r@.to_multiset() == items@.to_multiset(),
        forall|i: int, j: int| 0 <= i <= j < r.len() ==> r[i] <= r[j],
{
    itertools::sorted(items).collect()
}

/// Puts numbers that all differ into rising order.
fn in_order(items: Vec<usize>) -> (r: Vec<usize>)
    requires
        items@.no_duplicates(),
    ensures
        rising(r@),
        r@.to_set() == items@.to_set(),
        r.len() == items.len(),
{
    let ghost given = items@;
    let r = sorted_numbers(items);
    proof {
        given.to_multiset_ensures();
        r@.to_multiset_ensures();
        given.lemma_multiset_has_no_duplicates();
        r@.lemma_multiset_has_no_duplicates_conv();
        assert forall|x: usize| r@.to_set().contains(x) <==> given.to_set().contains(x) by {
            assert(r@.contains(x) <==> r@.to_multiset().count(x) > 0);
            assert(given.contains(x) <==> given.to_multiset().count(x) > 0);
        }
        assert(r@.to_set() =~= given.to_set());
    }
    r
}

/// The members of a set of numbers, smallest first.
fn set_in_order(set: &HashSet<usize>) -> (r: Vec<usize>)
    ensures
        rising(r@),
        r@.to_set() == set@,
{
    let mut items: Vec<usize> = Vec::new();
    let ghost all: Seq<usize> = vstd::std_specs::hash::spec_hash_keys_iter(
        set,
    ).remaining().unref();
    for x in it: set.iter()
        invariant
            it.seq().unref().to_set() == set@,
            it.seq().unref().no_duplicates(),
            items@ == it.seq().unref().take(it.index()),
            all == it.seq().unref(),
    {
        items.push(*x);
    }
    assert(items@ =~= all);
    in_order(items)
}

/// Each value is smaller than the next.
pub open spec fn rising_values(s: Seq<Value>) -> bool {
    forall|i: int, j: int| 0 <= i < j < s.len() ==> s[i] < s[j]
}

impl Possibles {
    /// The empty cells, in the order of the grid.
    pub fn listed_cells(&self) -> (r: Vec<Index>)
        ensures
            rising(r@),
            r@.to_set() == self@.dom(),
    {
        let by_cells = self.by_cells();
        let mut items: Vec<Index> = Vec::new();
        let ghost all: Seq<Index> = vstd::std_specs::hash::spec_keys_iter(
            &by_cells,
        ).remaining().unref();
        for c in it: by_cells.keys()
            invariant
                it.seq().unref().to_set() == by_cells@.dom(),
                it.seq().unref().no_duplicates(),
                items@ == it.seq().unref().take(it.index()),
                all == it.seq().unref(),
        {
            items.push(*c);
        }
        assert(items@ =~= all);
        in_order(items)
    }

    /// The values that the cell `index` may still take, smallest first;
    /// none where the cell is not empty.
    pub fn listed_values(&self, index: Index) -> (r: Vec<Value>)
        ensures
            rising_values(r@),
            r@.to_set() == (if self@.contains_key(index) {
                self@[index]
            } else {
                Set::empty()
            }),
    {
        let by_cells = self.by_cells();
        let mut r: Vec<Value> = Vec::new();
        match by_cells.get(&index) {
            Some(set) => {
                let mut items: Vec<usize> = Vec::new();
                let ghost all: Seq<Value> = vstd::std_specs::hash::spec_hash_keys_iter(
                    set,
                ).remaining().unref();
                for v in it: set.iter()
                    invariant
                        it.seq().unref().to_set() == set@,
                        it.seq().unref().no_duplicates(),
                        all == it.seq().unref(),
                        items.len() == it.index(),
                        forall|k: int| 0 <= k < items.len() ==> items[k] == all[k],
                {
                    items.push(*v as usize);
                }
                assert forall|i: int, j: int|
                    0 <= i < items.len() && 0 <= j < items.len() && i != j implies items[i]
                    != items[j] by {
                    assert(all[i] != all[j]);
                }
                let ordered = in_order(items);
                proof {
                    assert forall|k: int| 0 <= k < ordered.len() implies ordered[k] <= 255
                        && all.contains(ordered[k] as Value) by {
                        assert(ordered@.to_set().contains(ordered[k]));
                        assert(items@.contains(ordered[k]));
                        let j = choose|j: int| 0 <= j < items.len() && items[j] == ordered[k];
                        assert(all[j] == ordered[k]);
                    }
                }
                for k in 0..ordered.len()
                    invariant
                        forall|j: int| 0 <= j < ordered.len() ==> ordered[j] <= 255,
                        r.len() == k,
                        forall|j: int| 0 <= j < k ==> r[j] == ordered[j],
                {
                    r.push(ordered[k] as Value);
                }
                proof {
                    assert forall|v: Value| r@.to_set().contains(v) <==> set@.contains(v) by {
                        if r@.contains(v) {
                            let j = choose|j: int| 0 <= j < r.len() && r[j] == v;
                            assert(all.contains(ordered[j] as Value));
                            assert(all.to_set().contains(v));
                        }
                        if set@.contains(v) {
                            assert(all.to_set().contains(v));
                            let j = choose|j: int| 0 <= j < all.len() && all[j] == v;
                            assert(items[j] == v);
                            assert(items@.to_set().contains(v as usize));
                            assert(ordered@.contains(v as usize));
                            let i = choose|i: int| 0 <= i < ordered.len() && ordered[i] == v;
                            assert(r[i] == v);
                        }
                    }
                    assert(r@.to_set() =~= set@);
                }
            },
            None => {
                assert(r@.to_set() =~= Set::empty());
            },
        }
        r
    }

    /// The empty cells that may still take `value`, in the order of the
    /// grid.
    pub fn listed_cells_of(&self, value: Value) -> (r: Vec<Index>)
        ensures
            rising(r@),
            r@.to_set() == by_value(self@, value),
    {
        let by_values = self.by_values();
        match by_values.get(&value) {
            Some(set) => set_in_order(set),
            None => {
                let r: Vec<Index> = Vec::new();
                proof {
                    self.lemma_bounded();
                    assert(r@.to_set() =~= by_value(self@, value));
                }
                r
            },
        }
    }
}

} // verus!
