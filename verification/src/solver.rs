//! The backtracking search that collects the valid groups.

use crate::rules::{indices_in_range, items_well_formed};
use crate::rules::{lemma_item_rows, validate};
use crate::search::{extensions, lists_valid_groups, valid_groups};
use crate::search::{
    lemma_extensions_none_when_short, lemma_no_groups_when_too_few_items,
    lemma_valid_groups_listing,
};
use vstd::prelude::*;
use vstd::slice::slice_to_vec;

verus! {

/// A row of the deep view of a list of groups is the view of that group.
pub proof fn lemma_group_rows(groups: &Vec<Vec<usize>>)
    ensures
        groups.deep_view().len() == groups@.len(),
        forall|i: int| 0 <= i < groups@.len() ==> #[trigger] groups.deep_view()[i] == groups@[i]@,
{
    assert forall|i: int| 0 <= i < groups@.len() implies #[trigger] groups.deep_view()[i]
        == groups@[i]@ by {
        assert(groups@[i].deep_view() =~= groups@[i]@);
    }
}

/// A clone of a list of groups holds the same groups.
proof fn lemma_clone_same_groups(groups: &Vec<Vec<usize>>, copy: &Vec<Vec<usize>>)
    requires
        copy@.len() == groups@.len(),
        forall|i: int| 0 <= i < groups@.len() ==> cloned::<Vec<usize>>(groups@[i], copy@[i]),
    ensures
        copy.deep_view() == groups.deep_view(),
{
    lemma_group_rows(groups);
    lemma_group_rows(copy);
    assert forall|i: int| 0 <= i < groups@.len() implies copy@[i]@ == groups@[i]@ by {
        assert(cloned::<Vec<usize>>(groups@[i], copy@[i]));
        assert(copy@[i]@ =~= groups@[i]@);
    }
    assert(copy.deep_view() =~= groups.deep_view());
}

/// The state of one search: the collection, the parameters, and the valid
/// groups found so far.
pub struct Solver {
    pub items: Vec<Vec<u8>>,
    pub set_size: usize,
    pub variant_count: usize,
    pub sets: Vec<Vec<usize>>,
}

impl Solver {
    /// Every item has `variant_count` attribute values.
    pub open spec fn well_formed(&self) -> bool {
        items_well_formed(self.items.deep_view(), self.variant_count as nat)
    }

    /// The search leaves the collection and the parameters as they were.
    pub open spec fn same_problem(&self, other: &Solver) -> bool {
        &&& self.items == other.items
        &&& self.set_size == other.set_size
        &&& self.variant_count == other.variant_count
    }

    /// Appends the valid groups of the collection to `sets`, in lexicographic
    /// order, and returns a copy of `sets`.
    pub fn solve(&mut self) -> (sets: Vec<Vec<usize>>)
        requires
            old(self).well_formed(),
        ensures
            final(self).same_problem(old(self)),
            final(self).sets.deep_view() == old(self).sets.deep_view() + valid_groups(
                old(self).items.deep_view(),
                old(self).set_size as nat,
                old(self).variant_count as nat,
            ),
            sets.deep_view() == final(self).sets.deep_view(),
    {
        let ghost items = self.items.deep_view();
        let ghost set_size = self.set_size as nat;
        let ghost variant_count = self.variant_count as nat;
        let ghost found = old(self).sets.deep_view();
        let ghost none = Seq::<usize>::empty();
        let item_count: usize = self.items.len();
        if self.set_size == 0 || self.set_size > item_count {
            proof {
                if set_size > 0 {
                    lemma_no_groups_when_too_few_items(items, set_size, variant_count);
                }
                assert(found + Seq::<Seq<usize>>::empty() =~= found);
            }
            let sets = self.sets.clone();
            proof {
                lemma_clone_same_groups(&self.sets, &sets);
            }
            return sets;
        }
        let starts: usize = item_count - self.set_size + 1;
        let empty: Vec<usize> = Vec::new();
        for i in 0..starts
            invariant
                self.well_formed(),
                self.same_problem(old(self)),
                items == self.items.deep_view(),
                set_size == self.set_size,
                variant_count == self.variant_count,
                item_count == self.items@.len(),
                starts == item_count - set_size + 1,
                0 < set_size <= item_count,
                none == Seq::<usize>::empty(),
                empty@ == none,
                found == old(self).sets.deep_view(),
                self.sets.deep_view() + extensions(items, none, i as nat, set_size, variant_count)
                    == found + valid_groups(items, set_size, variant_count),
        {
            let ghost before = self.sets.deep_view();
            let ghost with = extensions(items, none.push(i), (i + 1) as nat, set_size, variant_count);
            let ghost without = extensions(items, none, (i + 1) as nat, set_size, variant_count);
            self.solve_helper(empty.as_slice(), i);
            proof {
                assert(extensions(items, none, i as nat, set_size, variant_count) == with
                    + without);
                assert((before + with) + without =~= before + (with + without));
            }
        }
        proof {
            lemma_extensions_none_when_short(items, none, starts as nat, set_size, variant_count);
            assert(self.sets.deep_view() + Seq::<Seq<usize>>::empty() =~= self.sets.deep_view());
        }
        let sets = self.sets.clone();
        proof {
            lemma_clone_same_groups(&self.sets, &sets);
        }
        sets
    }

    /// Appends to `sets`, in lexicographic order, the valid groups that begin
    /// with `candidate_set` followed by `current_item` and go on with larger
    /// indices. Nothing is appended where `current_item` is past the end of
    /// the collection.
    pub fn solve_helper(&mut self, candidate_set: &[usize], current_item: usize)
        requires
            old(self).well_formed(),
            candidate_set@.len() < old(self).set_size ==> indices_in_range(
                candidate_set@,
                old(self).items@.len(),
            ),
        ensures
            final(self).same_problem(old(self)),
            final(self).sets.deep_view() == old(self).sets.deep_view() + (if current_item < old(
                self,
            ).items@.len() {
                extensions(
                    old(self).items.deep_view(),
                    candidate_set@.push(current_item),
                    (current_item + 1) as nat,
                    old(self).set_size as nat,
                    old(self).variant_count as nat,
                )
            } else {
                Seq::<Seq<usize>>::empty()
            }),
        decreases old(self).items@.len() - current_item,
    {
        let ghost items = self.items.deep_view();
        let ghost set_size = self.set_size as nat;
        let ghost variant_count = self.variant_count as nat;
        let ghost found = old(self).sets.deep_view();
        let item_count: usize = self.items.len();
        if current_item >= item_count {
            assert(found + Seq::<Seq<usize>>::empty() =~= found);
            return ;
        }
        let mut new_candidate_set: Vec<usize> = slice_to_vec(candidate_set);
        new_candidate_set.push(current_item);
        let ghost taken = candidate_set@.push(current_item);
        let ghost target = extensions(
            items,
            taken,
            (current_item + 1) as nat,
            set_size,
            variant_count,
        );
        if new_candidate_set.len() == self.set_size {
            if validate(&self.items, new_candidate_set.as_slice(), self.variant_count) {
                self.sets.push(new_candidate_set);
                proof {
                    lemma_group_rows(&old(self).sets);
                    lemma_group_rows(&self.sets);
                    assert(target == seq![taken]);
                    assert(self.sets.deep_view() =~= found + target);
                }
            } else {
                assert(found + Seq::<Seq<usize>>::empty() =~= found);
            }
        } else if new_candidate_set.len() < self.set_size {
            for i in (current_item + 1)..item_count
                invariant
                    self.well_formed(),
                    self.same_problem(old(self)),
                    items == self.items.deep_view(),
                    set_size == self.set_size,
                    variant_count == self.variant_count,
                    item_count == self.items@.len(),
                    current_item < i,
                    new_candidate_set@ == taken,
                    taken.len() < set_size,
                    indices_in_range(taken, item_count as nat),
                    found == old(self).sets.deep_view(),
                    target == extensions(
                        items,
                        taken,
                        (current_item + 1) as nat,
                        set_size,
                        variant_count,
                    ),
                    self.sets.deep_view() + extensions(
                        items,
                        taken,
                        i as nat,
                        set_size,
                        variant_count,
                    ) == found + target,
                decreases item_count - i,
            {
                let ghost before = self.sets.deep_view();
                let ghost with = extensions(
                    items,
                    taken.push(i),
                    (i + 1) as nat,
                    set_size,
                    variant_count,
                );
                let ghost without = extensions(
                    items,
                    taken,
                    (i + 1) as nat,
                    set_size,
                    variant_count,
                );
                self.solve_helper(new_candidate_set.as_slice(), i);
                proof {
                    assert(extensions(items, taken, i as nat, set_size, variant_count) == with
                        + without);
                    assert((before + with) + without =~= before + (with + without));
                }
            }
            proof {
                assert(self.sets.deep_view() + Seq::<Seq<usize>>::empty()
                    =~= self.sets.deep_view());
            }
        } else {
            assert(found + Seq::<Seq<usize>>::empty() =~= found);
        }
    }
}

/// The valid groups of a collection, in the order in which they were found.
pub struct Solution(pub Vec<Vec<usize>>);

/// Finds the valid groups of the collection, as a `Solution`: the groups that
/// `find_valid_groups` gives.
pub fn solve(items: Vec<Vec<u8>>, set_size: usize, variant_count: usize) -> (solution: Solution)
    requires
        items_well_formed(items.deep_view(), variant_count as nat),
    ensures
        solution.0.deep_view() == valid_groups(
            items.deep_view(),
            set_size as nat,
            variant_count as nat,
        ),
        lists_valid_groups(
            solution.0.deep_view(),
            items.deep_view(),
            set_size as nat,
            variant_count as nat,
        ),
{
    proof {
        lemma_item_rows(&items);
        lemma_valid_groups_listing(items.deep_view(), set_size as nat, variant_count as nat);
    }
    let mut solver = Solver { items, set_size, variant_count, sets: Vec::new() };
    let sets = solver.solve();
    proof {
        let found = valid_groups(items.deep_view(), set_size as nat, variant_count as nat);
        assert(Seq::<Seq<usize>>::empty() + found =~= found);
    }
    Solution(sets)
}

/// Finds the valid groups of `set_size` members among `items`: every strictly
/// increasing tuple of `set_size` item indices whose members hold, at each of
/// the `variant_count` attribute positions, values that are all alike or all
/// different. The groups come in ascending lexicographic order, each once.
/// There is none where `set_size` is zero or larger than the number of items.
pub fn find_valid_groups(items: Vec<Vec<u8>>, set_size: usize, variant_count: usize) -> (groups:
    Vec<Vec<usize>>)
    requires
        items_well_formed(items.deep_view(), variant_count as nat),
    ensures
        groups.deep_view() == valid_groups(
            items.deep_view(),
            set_size as nat,
            variant_count as nat,
        ),
        lists_valid_groups(
            groups.deep_view(),
            items.deep_view(),
            set_size as nat,
            variant_count as nat,
        ),
        groups.deep_view().no_duplicates(),
        set_size == 0 || set_size > items@.len() ==> groups@.len() == 0,
{
    proof {
        lemma_item_rows(&items);
        lemma_valid_groups_listing(items.deep_view(), set_size as nat, variant_count as nat);
        if set_size > items@.len() {
            lemma_no_groups_when_too_few_items(
                items.deep_view(),
                set_size as nat,
                variant_count as nat,
            );
        }
    }
    let solution = solve(items, set_size, variant_count);
    proof {
        lemma_group_rows(&solution.0);
    }
    solution.0
}

} // verus!
