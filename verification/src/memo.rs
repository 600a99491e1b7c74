use crate::adjacency::assignments_from;
use crate::decomposition::{decompositions_from, leading_tuples};
use crate::partitions::partitions_from;
use crate::refinement::{follow, has_empty, sort_each_run};
use crate::runs::sequences_under;
use crate::sizes::{copy_shape, total_of, AdjacentTupleSizes, PlayRequirements};
use std::collections::HashMap;
use vstd::prelude::*;

verus! {

/// Tables of the lists that were computed before, each under the number it was computed
/// for. An enumerator that is asked through the tables looks its answer up first, and
/// notes what it had to compute. Nothing is ever taken out.
pub struct Memo {
    partitions: HashMap<usize, Vec<Vec<usize>>>,
    assignments: HashMap<usize, Vec<Vec<Vec<usize>>>>,
    decompositions: HashMap<usize, Vec<Vec<Vec<usize>>>>,
}

/// A copy of a list of shapes.
fn copy_shapes(shapes: &Vec<Vec<Vec<usize>>>) -> (r: Vec<Vec<Vec<usize>>>)
    ensures
        r.deep_view() == shapes.deep_view(),
{
    let mut out: Vec<Vec<Vec<usize>>> = Vec::with_capacity(shapes.len());
    let mut i: usize = 0;
    while i < shapes.len()
        invariant
            i <= shapes.len(),
            out.len() == i,
            forall|j: int| 0 <= j < i ==> (#[trigger] out@[j]).deep_view() == shapes@[j].deep_view(),
        decreases shapes.len() - i,
    {
        out.push(copy_shape(&shapes[i]));
        i = i + 1;
    }
    assert(out.deep_view() =~= shapes.deep_view());
    out
}

impl Memo {
    /// Every list in the tables is the list that the enumerator gives for its number.
    pub closed spec fn holds_results(self) -> bool {
        &&& forall|num: usize| #[trigger]
            self.partitions@.contains_key(num) ==> num >= 1 && self.partitions@[num].deep_view()
                == crate::partitions::tuple_partitions(num as nat)
        &&& forall|length: usize| #[trigger]
            self.assignments@.contains_key(length) ==> length >= 1
                && self.assignments@[length].deep_view() == crate::adjacency::adjacent_assignments(
                length as nat,
            )
        &&& forall|num: usize| #[trigger]
            self.decompositions@.contains_key(num) ==> num >= 1
                && self.decompositions@[num].deep_view()
                == crate::decomposition::full_decompositions(num as nat)
    }

    /// Empty tables.
    pub fn new() -> (r: Memo)
        ensures
            r.holds_results(),
    {
        Memo {
            partitions: HashMap::new(),
            assignments: HashMap::new(),
            decompositions: HashMap::new(),
        }
    }

    /// Every way to break `num` cards up into tuples, the greatest partition first. It is
    /// the list that `find_tuple_partitions` gives, whatever the tables held before.
    pub fn find_tuple_partitions(&mut self, num: usize) -> (r: Vec<AdjacentTupleSizes>)
        requires
            old(self).holds_results(),
            num >= 1,
        ensures
            final(self).holds_results(),
            r.deep_view() == crate::partitions::tuple_partitions(num as nat),
        decreases num,
    {
        broadcast use vstd::std_specs::hash::group_hash_axioms;

        match self.partitions.get(&num) {
            Some(known) => {
                return copy_shape(known);
            },
            None => {},
        }
        let smaller = if num == 1 {
            Vec::new()
        } else {
            self.find_tuple_partitions(num - 1)
        };
        let groupings = partitions_from(smaller, num);
        self.partitions.insert(num, copy_shape(&groupings));
        groupings
    }

    /// Every way to group the positions `0 .. length` into clusters, the coarsest first.
    /// It is the list that `compute_adjacent_assignments` gives, whatever the tables held
    /// before.
    pub fn compute_adjacent_assignments(&mut self, length: usize) -> (r: Vec<Vec<Vec<usize>>>)
        requires
            old(self).holds_results(),
            length >= 1,
        ensures
            final(self).holds_results(),
            r.deep_view() == crate::adjacency::adjacent_assignments(length as nat),
        decreases length,
    {
        broadcast use vstd::std_specs::hash::group_hash_axioms;

        if length == 1 {
            return assignments_from(Vec::new(), length);
        }
        match self.assignments.get(&length) {
            Some(known) => {
                return copy_shapes(known);
            },
            None => {},
        }
        let shorter = self.compute_adjacent_assignments(length - 1);
        let assignments = assignments_from(shorter, length);
        self.assignments.insert(length, copy_shapes(&assignments));
        assignments
    }

    /// Every way to arrange the tuple sizes `values` into runs. It is the list that
    /// `group_into_sequential_tuples` gives, whatever the tables held before.
    pub fn group_into_sequential_tuples(&mut self, values: &[usize]) -> (r: Vec<PlayRequirements>)
        requires
            old(self).holds_results(),
            values@.len() >= 1,
        ensures
            final(self).holds_results(),
            r.deep_view() == crate::runs::sequential_runs(values@),
    {
        let assignments = self.compute_adjacent_assignments(values.len());
        proof {
            crate::runs::lemma_assignments_name_positions(values@.len());
        }
        sequences_under(values, assignments)
    }

    /// Every shape that `num_cards` cards can take, the most demanding first. It is the
    /// list that `full_decomposition_ordering` gives, whatever the tables held before.
    pub fn full_decomposition_ordering(&mut self, num_cards: usize) -> (r: Vec<PlayRequirements>)
        requires
            old(self).holds_results(),
            num_cards >= 1,
        ensures
            final(self).holds_results(),
            r.deep_view() == crate::decomposition::full_decompositions(num_cards as nat),
    {
        broadcast use vstd::std_specs::hash::group_hash_axioms;

        match self.decompositions.get(&num_cards) {
            Some(known) => {
                return copy_shapes(known);
            },
            None => {},
        }
        let groupings = self.find_tuple_partitions(num_cards);
        let ghost parts = groupings.deep_view();
        let mut arranged: Vec<Vec<Vec<Vec<usize>>>> = Vec::with_capacity(groupings.len());
        let mut g: usize = 0;
        proof {
            crate::views::lemma_shape_view(groupings);
        }
        while g < groupings.len()
            invariant
                g <= groupings.len(),
                arranged.len() == g,
                self.holds_results(),
                parts == groupings.deep_view(),
                forall|i: int| 0 <= i < groupings@.len() ==> #[trigger] parts[i] == groupings@[i]@,
                forall|i: int|
                    0 <= i < g && crate::decomposition::first_single(parts[i]) > 0 ==> (
                    #[trigger] arranged@[i]).deep_view() == crate::runs::sequential_runs(
                        parts[i].take(crate::decomposition::first_single(parts[i])),
                    ),
            decreases groupings.len() - g,
        {
            let gt_1 = leading_tuples(&groupings[g]);
            if gt_1.len() == 0 {
                arranged.push(Vec::new());
            } else {
                arranged.push(self.group_into_sequential_tuples(gt_1.as_slice()));
            }
            g = g + 1;
        }
        proof {
            assert forall|i: int|
                0 <= i < parts.len() && crate::decomposition::first_single(parts[i])
                    > 0 implies #[trigger] arranged.deep_view()[i]
                == crate::runs::sequential_runs(
                parts[i].take(crate::decomposition::first_single(parts[i])),
            ) by {
                assert(arranged.deep_view()[i] == arranged@[i].deep_view());
            }
            crate::decomposition::lemma_shapes_of_all(parts, arranged.deep_view());
        }
        let full_decomp = decompositions_from(groupings, arranged);
        self.decompositions.insert(num_cards, copy_shapes(&full_decomp));
        full_decomp
    }

    /// The shapes that may follow the shape `adj_reqs`. It is the list that
    /// `subsequent_decomposition_ordering` gives, whatever the tables held before.
    pub fn subsequent_decomposition_ordering(
        &mut self,
        adj_reqs: PlayRequirements,
        include_new_adjacency: bool,
    ) -> (r: Vec<PlayRequirements>)
        requires
            old(self).holds_results(),
            crate::refinement::has_empty_run(adj_reqs.deep_view()) || forall|i: int|
                0 <= i < adj_reqs.deep_view().len() ==> 1 <= crate::sizes::run_total(
                    #[trigger] adj_reqs.deep_view()[i],
                ) <= usize::MAX,
        ensures
            final(self).holds_results(),
            r.deep_view() == crate::refinement::subsequent_decompositions(
                adj_reqs.deep_view(),
                include_new_adjacency,
            ),
            crate::refinement::has_empty_run(adj_reqs.deep_view()) ==> r.len() == 0,
    {
        let ghost shape = adj_reqs.deep_view();
        if has_empty(&adj_reqs) {
            let none: Vec<Vec<Vec<usize>>> = Vec::new();
            assert(none.deep_view() =~= crate::refinement::subsequent_decompositions(
                shape,
                include_new_adjacency,
            ));
            return none;
        }
        let adj_reqs = sort_each_run(adj_reqs);
        let ghost runs = adj_reqs.deep_view();
        let mut decomps: Vec<Vec<Vec<Vec<usize>>>> = Vec::with_capacity(adj_reqs.len());
        let mut i: usize = 0;
        proof {
            crate::views::lemma_shape_view(adj_reqs);
        }
        while i < adj_reqs.len()
            invariant
                i <= adj_reqs.len(),
                decomps.len() == i,
                self.holds_results(),
                runs == adj_reqs.deep_view(),
                runs.len() == adj_reqs@.len(),
                runs.len() == shape.len(),
                runs == crate::refinement::canonical_runs_of(shape),
                forall|j: int| 0 <= j < adj_reqs@.len() ==> #[trigger] runs[j] == adj_reqs@[j]@,
                forall|j: int|
                    0 <= j < shape.len() ==> 1 <= crate::sizes::run_total(#[trigger] shape[j])
                        <= usize::MAX,
                forall|j: int|
                    0 <= j < i ==> (#[trigger] decomps@[j]).deep_view()
                        == crate::decomposition::full_decompositions(
                        crate::sizes::run_total(runs[j]) as nat,
                    ),
            decreases adj_reqs.len() - i,
        {
            proof {
                assert(runs[i as int] == crate::refinement::canonical_run(shape[i as int]));
                crate::sizes::lemma_sorted_run_total(shape[i as int], crate::sizes::larger_first());
            }
            let len = total_of(&adj_reqs[i]);
            decomps.push(self.full_decomposition_ordering(len));
            i = i + 1;
        }
        assert(decomps.deep_view() =~= crate::refinement::decompositions_of_runs(runs));
        follow(adj_reqs, decomps, include_new_adjacency)
    }
}

} // verus!
