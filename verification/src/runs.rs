use crate::memo::Memo;
use crate::sizes::{copy_shape, run_precedes, PlayRequirements};
use crate::sorting::sort_stably;
use itertools::Itertools;
use vstd::prelude::*;

verus! {

/// What `Itertools::permutations` yields for `items` when it is asked for orderings of
/// full length: the orderings, in the order in which they are yielded.
pub uninterp spec fn permutations_of(items: Seq<usize>) -> Seq<Seq<usize>>;

/// Whether a run holds the sizes of `run`, each as often as `run` does.
pub open spec fn rearranges(run: Seq<usize>) -> spec_fn(Seq<usize>) -> bool {
    |other: Seq<usize>| other.to_multiset() == run.to_multiset()
}

/// The distinct orderings of `run`: what the permutation adaptor yields for it, each
/// ordering once, where it first occurs. The adaptor yields rearrangements of `run` only,
/// so the filter passes them all; with it, what this list holds is known to rearrange
/// `run` wherever the list is spoken of.
pub open spec fn orderings(run: Seq<usize>) -> Seq<Seq<usize>> {
    crate::sorting::first_occurrences(permutations_of(run).filter(rearranges(run)))
}

/// Each shape of `heads` with each run of `tails` behind it; the runs of `tails` change
/// fastest.
pub open spec fn extend_each(heads: Seq<Seq<Seq<usize>>>, tails: Seq<Seq<usize>>) -> Seq<
    Seq<Seq<usize>>,
>
    decreases heads.len(),
{
    if heads.len() == 0 {
        Seq::empty()
    } else {
        extend_each(heads.drop_last(), tails) + Seq::new(
            tails.len(),
            |t: int| heads.last().push(tails[t]),
        )
    }
}

/// The cartesian product of the lists `choices`: every shape that takes its first run
/// from the first list, its second from the second, and so on. The run from the last list
/// changes fastest.
pub open spec fn product(choices: Seq<Seq<Seq<usize>>>) -> Seq<Seq<Seq<usize>>>
    decreases choices.len(),
{
    if choices.len() == 0 {
        seq![Seq::empty()]
    } else {
        extend_each(product(choices.drop_last()), choices.last())
    }
}

/// All sizes of `run` are the same.
pub open spec fn is_uniform(run: Seq<usize>) -> bool {
    forall|i: int| 0 <= i < run.len() ==> #[trigger] run[i] == run[0]
}

/// Every run of `clusters` is uniform.
pub open spec fn all_uniform(clusters: Seq<Seq<usize>>) -> bool {
    forall|c: int| 0 <= c < clusters.len() ==> is_uniform(#[trigger] clusters[c])
}

/// The sizes that stand in `values` at the positions of `cluster`.
pub open spec fn cluster_sizes(values: Seq<usize>, cluster: Seq<usize>) -> Seq<usize> {
    Seq::new(cluster.len(), |i: int| values[cluster[i] as int])
}

/// The clustering `assignment` of positions, read as a grouping of the sizes of `values`.
pub open spec fn clustered(values: Seq<usize>, assignment: Seq<Seq<usize>>) -> Seq<Seq<usize>> {
    Seq::new(assignment.len(), |c: int| cluster_sizes(values, assignment[c]))
}

/// For each cluster, its distinct orderings.
pub open spec fn orderings_of_each(clusters: Seq<Seq<usize>>) -> Seq<Seq<Seq<usize>>> {
    Seq::new(clusters.len(), |c: int| orderings(clusters[c]))
}

/// The shapes that a grouping of sizes stands for. Where every cluster is uniform that is
/// the grouping itself; else each cluster may be played in any of its distinct orderings,
/// and every combination is a shape.
pub open spec fn arrangements(clusters: Seq<Seq<usize>>) -> Seq<Seq<Seq<usize>>> {
    if all_uniform(clusters) {
        seq![clusters]
    } else {
        product(orderings_of_each(clusters))
    }
}

/// The arrangements of `values` under each clustering of `assignments`, in turn.
pub open spec fn arrangements_of_all(
    values: Seq<usize>,
    assignments: Seq<Seq<Seq<usize>>>,
) -> Seq<Seq<Seq<usize>>>
    decreases assignments.len(),
{
    if assignments.len() == 0 {
        Seq::empty()
    } else {
        arrangements_of_all(values, assignments.drop_last()) + arrangements(
            clustered(values, assignments.last()),
        )
    }
}

/// The canonical form of a shape: its runs, the greatest first.
pub open spec fn canonical(shape: Seq<Seq<usize>>) -> Seq<Seq<usize>> {
    crate::sorting::stable_sort(shape, crate::sizes::descending())
}

/// The key under which two shapes count as the same: their canonical form, which they
/// share exactly if one reorders the runs of the other.
pub open spec fn canonical_form() -> spec_fn(Seq<Seq<usize>>) -> Seq<Seq<usize>> {
    |shape: Seq<Seq<usize>>| canonical(shape)
}

/// The shapes of `shapes` without those that reorder the runs of an earlier one.
pub open spec fn distinct(shapes: Seq<Seq<Seq<usize>>>) -> Seq<Seq<Seq<usize>>> {
    crate::sorting::first_of_each(shapes, canonical_form())
}

/// Every way to arrange `values` into runs: for each clustering of the positions of
/// `values`, coarsest first, the arrangements of the sizes so grouped; a shape that
/// reorders the runs of an earlier one is left out.
pub open spec fn sequential_runs(values: Seq<usize>) -> Seq<Seq<Seq<usize>>> {
    distinct(
        arrangements_of_all(values, crate::adjacency::adjacent_assignments(values.len())),
    )
}

/// Calls `Itertools::permutations` on the sizes of `run`, for orderings of full length,
/// and takes what it yields, one ordering after the other. The contract names that list,
/// and records that each ordering in it holds the sizes of `run`, each as often as `run`
/// does.
#[verifier::external_body]
fn all_permutations(run: &Vec<usize>) -> (r: Vec<Vec<usize>>)
    ensures
        r.deep_view() == permutations_of(run@),
        forall|i: int| 0 <= i < r.len() ==> (#[trigger] r[i])@.to_multiset() == run@.to_multiset(),
{
    let mut out: Vec<Vec<usize>> = Vec::new();
    for ordering in run.iter().copied().permutations(run.len()) {
        out.push(ordering);
    }
    out
}

/// Calls `Itertools::unique` on the runs of `runs`. It keeps the first of each set of
/// equal runs and leaves the order of what it keeps unchanged.
#[verifier::external_body]
fn distinct_runs(runs: Vec<Vec<usize>>) -> (r: Vec<Vec<usize>>)
    ensures
        r.deep_view() == crate::sorting::first_occurrences(runs.deep_view()),
{
    runs.into_iter().unique().collect()
}

/// Calls `Itertools::multi_cartesian_product` on the lists of `choices`. It yields every
/// combination of one run from each list, in the order of the lists, and steps through
/// the last list fastest.
#[verifier::external_body]
fn cartesian_product(choices: Vec<Vec<Vec<usize>>>) -> (r: Vec<Vec<Vec<usize>>>)
    requires
        choices.len() >= 1,
    ensures
        r.deep_view() == product(choices.deep_view()),
{
    choices.into_iter().multi_cartesian_product().collect()
}

/// Calls `Itertools::unique_by` on `shapes`, with the canonical form as the key. It keeps
/// the first of each set of shapes with equal keys and leaves the order of what it keeps
/// unchanged.
#[verifier::external_body]
pub(crate) fn distinct_shapes(shapes: Vec<Vec<Vec<usize>>>) -> (r: Vec<Vec<Vec<usize>>>)
    ensures
        r.deep_view() == distinct(shapes.deep_view()),
{
    shapes.into_iter().unique_by(|shape| canonical_runs(shape)).collect()
}

/// The canonical form of `shape`: a copy with the runs sorted, the greatest first.
pub fn canonical_runs(shape: &Vec<Vec<usize>>) -> (r: Vec<Vec<usize>>)
    ensures
        r.deep_view() == canonical(shape.deep_view()),
{
    sort_runs(copy_shape(shape))
}

/// The runs of `runs`, sorted: the greatest first.
pub fn sort_runs(runs: Vec<Vec<usize>>) -> (r: Vec<Vec<usize>>)
    ensures
        r.deep_view() == canonical(runs.deep_view()),
{
    proof {
        crate::views::lemma_runs_model(runs);
    }
    let sorted = sort_stably::<Vec<usize>, Seq<usize>, _>(
        runs,
        run_precedes,
        Ghost(crate::views::run_model()),
        Ghost(crate::sizes::descending()),
    );
    proof {
        crate::views::lemma_runs_model(sorted);
    }
    sorted
}

/// A filter that every entry passes keeps the sequence.
proof fn lemma_filter_keeps_all<U>(s: Seq<U>, pred: spec_fn(U) -> bool)
    requires
        forall|i: int| 0 <= i < s.len() ==> pred(#[trigger] s[i]),
    ensures
        s.filter(pred) == s,
    decreases s.len(),
{
    reveal(Seq::filter);
    if s.len() > 0 {
        let init = s.drop_last();
        assert forall|i: int| 0 <= i < init.len() implies pred(#[trigger] init[i]) by {
            assert(init[i] == s[i]);
        }
        lemma_filter_keeps_all(init, pred);
        assert(pred(s[s.len() - 1]));
        assert(init.push(s.last()) =~= s);
    }
}

/// Each list of `lists` without the runs that occurred in it before.
pub open spec fn first_occurrences_of_each(lists: Seq<Seq<Seq<usize>>>) -> Seq<Seq<Seq<usize>>> {
    Seq::new(lists.len(), |c: int| crate::sorting::first_occurrences(lists[c]))
}

/// The shapes that take their first run from the first list of `permutations`, their second
/// from the second, and so on, where a run that a list repeats counts once, at its first
/// place. The run from the last list changes fastest.
pub fn combine_permutations(permutations: Vec<Vec<Vec<usize>>>) -> (r: Vec<PlayRequirements>)
    ensures
        r.deep_view() == product(first_occurrences_of_each(permutations.deep_view())),
{
    let ghost lists = permutations.deep_view();
    let mut choices: Vec<Vec<Vec<usize>>> = Vec::new();
    for yielded in it: permutations
        invariant
            it.seq().len() == lists.len(),
            forall|c: int| 0 <= c < lists.len() ==> (#[trigger] it.seq()[c]).deep_view() == lists[c],
            choices.len() == it.index(),
            forall|c: int|
                0 <= c < it.index() ==> (#[trigger] choices@[c]).deep_view()
                    == crate::sorting::first_occurrences(lists[c]),
    {
        choices.push(distinct_runs(yielded));
    }
    assert(choices.deep_view() =~= first_occurrences_of_each(lists));
    if choices.len() == 0 {
        let mut only: Vec<Vec<Vec<usize>>> = Vec::new();
        only.push(Vec::new());
        proof {
            assert(only@[0].deep_view() =~= Seq::<Seq<usize>>::empty());
            assert(only.deep_view() =~= seq![Seq::<Seq<usize>>::empty()]);
        }
        only
    } else {
        cartesian_product(choices)
    }
}

/// Whether all sizes of `run` are the same.
fn run_is_uniform(run: &Vec<usize>) -> (r: bool)
    ensures
        r == is_uniform(run@),
{
    let mut i: usize = 0;
    while i < run.len()
        invariant
            i <= run.len(),
            forall|j: int| 0 <= j < i ==> #[trigger] run@[j] == run@[0],
        decreases run.len() - i,
    {
        if run[i] != run[0] {
            return false;
        }
        i = i + 1;
    }
    true
}

/// Whether every run of `clusters` is uniform.
fn clusters_are_uniform(clusters: &Vec<Vec<usize>>) -> (r: bool)
    ensures
        r == all_uniform(clusters.deep_view()),
{
    proof {
        crate::views::lemma_shape_view(*clusters);
    }
    let mut c: usize = 0;
    while c < clusters.len()
        invariant
            c <= clusters.len(),
            clusters.deep_view().len() == clusters@.len(),
            forall|j: int|
                0 <= j < clusters@.len() ==> #[trigger] clusters.deep_view()[j] == clusters@[j]@,
            forall|j: int| 0 <= j < c ==> is_uniform(#[trigger] clusters.deep_view()[j]),
        decreases clusters.len() - c,
    {
        if !run_is_uniform(&clusters[c]) {
            assert(!is_uniform(clusters.deep_view()[c as int]));
            return false;
        }
        c = c + 1;
    }
    true
}

/// The shapes that the grouping `clusters` stands for.
pub fn arrangements_of(clusters: Vec<Vec<usize>>) -> (r: Vec<PlayRequirements>)
    ensures
        r.deep_view() == arrangements(clusters.deep_view()),
{
    if clusters_are_uniform(&clusters) {
        let mut only: Vec<Vec<Vec<usize>>> = Vec::new();
        only.push(clusters);
        assert(only.deep_view() =~= seq![clusters.deep_view()]);
        only
    } else {
        let mut permutations: Vec<Vec<Vec<usize>>> = Vec::new();
        let mut c: usize = 0;
        proof {
            crate::views::lemma_shape_view(clusters);
        }
        while c < clusters.len()
            invariant
                c <= clusters.len(),
                permutations.len() == c,
                clusters.deep_view().len() == clusters@.len(),
                forall|j: int|
                    0 <= j < clusters@.len() ==> #[trigger] clusters.deep_view()[j]
                        == clusters@[j]@,
                forall|j: int|
                    0 <= j < c ==> crate::sorting::first_occurrences(
                        (#[trigger] permutations@[j]).deep_view(),
                    ) == orderings(clusters.deep_view()[j]),
            decreases clusters.len() - c,
        {
            let yielded = all_permutations(&clusters[c]);
            proof {
                crate::views::lemma_shape_view(yielded);
                lemma_filter_keeps_all(yielded.deep_view(), rearranges(clusters@[c as int]@));
            }
            permutations.push(yielded);
            c = c + 1;
        }
        assert(first_occurrences_of_each(permutations.deep_view()) =~= orderings_of_each(
            clusters.deep_view(),
        ));
        combine_permutations(permutations)
    }
}

/// The sizes of `values` grouped as `assignment` groups their positions.
fn sizes_of_clusters(values: &[usize], assignment: &Vec<Vec<usize>>) -> (r: Vec<Vec<usize>>)
    requires
        forall|c: int, i: int|
            0 <= c < assignment@.len() && 0 <= i < assignment@[c]@.len() ==> #[trigger] assignment@[c]@[i]
                < values@.len(),
    ensures
        r.deep_view() == clustered(values@, assignment.deep_view()),
{
    let mut out: Vec<Vec<usize>> = Vec::new();
    let mut c: usize = 0;
    proof {
        crate::views::lemma_shape_view(*assignment);
    }
    while c < assignment.len()
        invariant
            c <= assignment.len(),
            out.len() == c,
            forall|d: int, i: int|
                0 <= d < assignment@.len() && 0 <= i < assignment@[d]@.len() ==> #[trigger] assignment@[d]@[i]
                    < values@.len(),
            forall|d: int| 0 <= d < c ==> (#[trigger] out@[d])@ == cluster_sizes(
                values@,
                assignment@[d]@,
            ),
        decreases assignment.len() - c,
    {
        let cluster = &assignment[c];
        let mut sizes: Vec<usize> = Vec::new();
        let mut i: usize = 0;
        while i < cluster.len()
            invariant
                i <= cluster.len(),
                sizes.len() == i,
                forall|j: int| 0 <= j < cluster@.len() ==> #[trigger] cluster@[j] < values@.len(),
                forall|j: int| 0 <= j < i ==> #[trigger] sizes@[j] == values@[cluster@[j] as int],
            decreases cluster.len() - i,
        {
            sizes.push(values[cluster[i]]);
            i = i + 1;
        }
        assert(sizes@ =~= cluster_sizes(values@, cluster@));
        out.push(sizes);
        c = c + 1;
    }
    proof {
        crate::views::lemma_shape_view(out);
        assert(out.deep_view() =~= clustered(values@, assignment.deep_view()));
    }
    out
}

/// Every way to arrange the tuple sizes `values` into runs, as `sequential_runs` lists
/// them.
pub fn group_into_sequential_tuples(values: &[usize]) -> (r: Vec<PlayRequirements>)
    requires
        values@.len() >= 1,
    ensures
        r.deep_view() == sequential_runs(values@),
{
    let mut memo = Memo::new();
    memo.group_into_sequential_tuples(values)
}

/// Every position that the clusterings of `assignments` name lies below `count`.
pub open spec fn positions_below(assignments: Seq<Seq<Seq<usize>>>, count: nat) -> bool {
    forall|a: int, c: int, i: int|
        0 <= a < assignments.len() && 0 <= c < assignments[a].len() && 0 <= i
            < assignments[a][c].len() ==> #[trigger] assignments[a][c][i] < count
}

/// The arrangements of `values` under each clustering of `assignments`, in turn, without
/// the shapes that reorder the runs of an earlier one.
pub fn sequences_under(values: &[usize], assignments: Vec<Vec<Vec<usize>>>) -> (r: Vec<
    PlayRequirements,
>)
    requires
        positions_below(assignments.deep_view(), values@.len()),
    ensures
        r.deep_view() == distinct(arrangements_of_all(values@, assignments.deep_view())),
{
    let ghost listed = assignments.deep_view();
    let mut found: Vec<Vec<Vec<usize>>> = Vec::new();
    proof {
        assert(found.deep_view() =~= arrangements_of_all(values@, listed.take(0)));
    }
    for assignment in it: assignments
        invariant
            it.seq().len() == listed.len(),
            forall|i: int|
                0 <= i < listed.len() ==> (#[trigger] it.seq()[i]).deep_view() == listed[i],
            positions_below(listed, values@.len()),
            found.deep_view() == arrangements_of_all(values@, listed.take(it.index() as int)),
    {
        let ghost held = found;
        proof {
            let i = it.index() as int;
            assert(listed.take(i + 1).drop_last() =~= listed.take(i));
            assert(listed.take(i + 1).last() == assignment.deep_view());
            crate::views::lemma_shape_view(assignment);
            assert forall|c: int, j: int|
                0 <= c < assignment@.len() && 0 <= j < assignment@[c]@.len() implies #[trigger] assignment@[c]@[j]
                < values@.len() by {
                assert(listed[i][c][j] < values@.len());
            }
        }
        let clusters = sizes_of_clusters(values, &assignment);
        let mut shapes = arrangements_of(clusters);
        let ghost added = shapes;
        found.append(&mut shapes);
        assert(found.deep_view() =~= held.deep_view() + added.deep_view());
    }
    assert(listed.take(listed.len() as int) =~= listed);
    distinct_shapes(found)
}

/// The clusterings of `count` positions name positions below `count` only.
pub proof fn lemma_assignments_name_positions(count: nat)
    requires
        1 <= count <= usize::MAX,
    ensures
        positions_below(crate::adjacency::adjacent_assignments(count), count),
{
    let listed = crate::adjacency::adjacent_assignments(count);
    crate::adjacency::lemma_assignments_are_clusterings(count);
    assert forall|a: int, c: int, i: int|
        0 <= a < listed.len() && 0 <= c < listed[a].len() && 0 <= i
            < listed[a][c].len() implies #[trigger] listed[a][c][i] < count by {
        assert(crate::adjacency::is_clustering(listed[a], count));
        assert(crate::adjacency::holds_at(listed[a], c, i, listed[a][c][i]));
    }
}

/// A clustering of the positions of `values`, read as a grouping of their sizes, holds
/// as many cards as the sizes at the positions it groups.
pub proof fn lemma_clustered_total(values: Seq<usize>, k: nat, a: Seq<Seq<usize>>)
    requires
        1 <= k <= values.len(),
        k <= usize::MAX,
        crate::adjacency::adjacent_assignments(k).contains(a),
    ensures
        crate::sizes::shape_total(clustered(values, a)) == crate::sizes::run_total(
            values.take(k as int),
        ),
    decreases k,
{
    if k == 1 {
        let only = seq![seq![0usize]];
        assert(crate::adjacency::adjacent_assignments(1) =~= seq![only]);
        assert(a == only);
        let c = clustered(values, a);
        assert(c.drop_last() =~= Seq::<Seq<usize>>::empty());
        assert(c.last() =~= seq![values[0]]);
        assert(values.take(1) =~= seq![values[0]]);
        assert(crate::sizes::shape_total(c.drop_last()) == 0);
    } else {
        let parts = crate::adjacency::adjacent_assignments((k - 1) as nat);
        let new = (k - 1) as usize;
        crate::adjacency::lemma_assignment_extends(k, a);
        let (i, c) = choose|i: int, c: int|
            0 <= i < parts.len() && 0 <= c <= parts[i].len() && a
                == #[trigger] crate::adjacency::extensions(parts[i], new)[c];
        let part = parts[i];
        assert(parts.contains(part));
        lemma_clustered_total(values, (k - 1) as nat, part);
        let before = clustered(values, part);
        let after = clustered(values, a);
        if c < part.len() {
            assert(a == crate::adjacency::joined(part, c, new));
            assert forall|d: int| 0 <= d < after.len() implies after[d] == before.update(
                c,
                before[c].push(values[k - 1]),
            )[d] by {
                if d == c {
                    assert(after[d] =~= before[c].push(values[k - 1]));
                } else {
                    assert(after[d] =~= before[d]);
                }
            }
            assert(after =~= before.update(c, before[c].push(values[k - 1])));
            crate::sizes::lemma_shape_total_join(before, c, values[k - 1]);
        } else {
            assert(a == crate::adjacency::set_apart(part, new));
            assert forall|d: int| 0 <= d < after.len() implies after[d] == before.push(
                seq![values[k - 1]],
            )[d] by {
                if d == part.len() {
                    assert(after[d] =~= seq![values[k - 1]]);
                } else {
                    assert(after[d] =~= before[d]);
                }
            }
            assert(after =~= before.push(seq![values[k - 1]]));
            crate::sizes::lemma_shape_total_push(before, seq![values[k - 1]]);
            assert(seq![values[k - 1]].drop_last() =~= Seq::<usize>::empty());
            assert(crate::sizes::run_total(seq![values[k - 1]].drop_last()) == 0);
        }
        assert(values.take(k as int) =~= values.take(k - 1).push(values[k - 1]));
        crate::sizes::lemma_run_total_push(values.take(k - 1), values[k - 1]);
    }
}

/// Every ordering of a run holds the sizes of the run, each as often as the run does.
pub proof fn lemma_orderings_rearrange(run: Seq<usize>, ordering: Seq<usize>)
    requires
        orderings(run).contains(ordering),
    ensures
        ordering.to_multiset() == run.to_multiset(),
        crate::sizes::run_total(ordering) == crate::sizes::run_total(run),
{
    let yielded = permutations_of(run).filter(rearranges(run));
    crate::sorting::lemma_first_of_each(yielded, crate::sorting::itself());
    assert(yielded.contains(ordering));
    let i = choose|i: int| 0 <= i < yielded.len() && yielded[i] == ordering;
    permutations_of(run).lemma_filter_pred(rearranges(run), i);
    crate::sizes::lemma_rearranged_run_total(ordering, run);
}

/// What `extend_each` holds: a shape of `heads` with a run of `tails` behind it.
pub proof fn lemma_extend_each_members(
    heads: Seq<Seq<Seq<usize>>>,
    tails: Seq<Seq<usize>>,
    shape: Seq<Seq<usize>>,
)
    requires
        extend_each(heads, tails).contains(shape),
    ensures
        shape.len() > 0,
        heads.contains(shape.drop_last()),
        tails.contains(shape.last()),
    decreases heads.len(),
{
    if heads.len() > 0 {
        let a = extend_each(heads.drop_last(), tails);
        let b = Seq::new(tails.len(), |t: int| heads.last().push(tails[t]));
        vstd::seq_lib::lemma_seq_concat_contains_all_elements(a, b, shape);
        if a.contains(shape) {
            lemma_extend_each_members(heads.drop_last(), tails, shape);
            let i = choose|i: int|
                0 <= i < heads.drop_last().len() && heads.drop_last()[i] == shape.drop_last();
            assert(heads[i] == shape.drop_last());
        } else {
            let t = choose|t: int| 0 <= t < b.len() && b[t] == shape;
            assert(shape == heads.last().push(tails[t]));
            assert(shape.drop_last() =~= heads.last());
            assert(heads[heads.len() - 1] == shape.drop_last());
            assert(tails[t] == shape.last());
        }
    }
}

/// Every shape of a product takes its runs from the lists, place by place.
pub proof fn lemma_product_members(choices: Seq<Seq<Seq<usize>>>, shape: Seq<Seq<usize>>)
    requires
        product(choices).contains(shape),
    ensures
        shape.len() == choices.len(),
        forall|c: int| 0 <= c < choices.len() ==> (#[trigger] choices[c]).contains(shape[c]),
    decreases choices.len(),
{
    if choices.len() == 0 {
        assert(product(choices) =~= seq![Seq::<Seq<usize>>::empty()]);
        let i = choose|i: int| 0 <= i < product(choices).len() && product(choices)[i] == shape;
        assert(shape == product(choices)[0]);
    } else {
        lemma_extend_each_members(product(choices.drop_last()), choices.last(), shape);
        lemma_product_members(choices.drop_last(), shape.drop_last());
        assert forall|c: int| 0 <= c < choices.len() implies (#[trigger] choices[c]).contains(
            shape[c],
        ) by {
            if c < choices.len() - 1 {
                assert(choices.drop_last()[c] == choices[c]);
                assert(choices.drop_last()[c].contains(shape.drop_last()[c]));
                assert(shape.drop_last()[c] == shape[c]);
            }
        }
    }
}

/// Every arrangement of a grouping holds as many cards as the grouping.
pub proof fn lemma_arrangements_total(clusters: Seq<Seq<usize>>, shape: Seq<Seq<usize>>)
    requires
        arrangements(clusters).contains(shape),
    ensures
        crate::sizes::shape_total(shape) == crate::sizes::shape_total(clusters),
{
    if all_uniform(clusters) {
        let i = choose|i: int|
            0 <= i < arrangements(clusters).len() && arrangements(clusters)[i] == shape;
        assert(shape == clusters);
    } else {
        lemma_product_members(orderings_of_each(clusters), shape);
        assert forall|c: int| 0 <= c < shape.len() implies crate::sizes::run_total(
            #[trigger] shape[c],
        ) == crate::sizes::run_total(clusters[c]) by {
            assert(orderings_of_each(clusters)[c].contains(shape[c]));
            lemma_orderings_rearrange(clusters[c], shape[c]);
        }
        crate::sizes::lemma_shape_total_by_runs(shape, clusters);
    }
}

/// What `arrangements_of_all` holds: arrangements of `values` under one of the
/// clusterings.
pub proof fn lemma_arrangements_of_all_members(
    values: Seq<usize>,
    assignments: Seq<Seq<Seq<usize>>>,
    shape: Seq<Seq<usize>>,
)
    requires
        arrangements_of_all(values, assignments).contains(shape),
    ensures
        exists|i: int|
            0 <= i < assignments.len() && (#[trigger] arrangements(
                clustered(values, assignments[i]),
            )).contains(shape),
    decreases assignments.len(),
{
    if assignments.len() > 0 {
        let a = arrangements_of_all(values, assignments.drop_last());
        let b = arrangements(clustered(values, assignments.last()));
        vstd::seq_lib::lemma_seq_concat_contains_all_elements(a, b, shape);
        if a.contains(shape) {
            lemma_arrangements_of_all_members(values, assignments.drop_last(), shape);
            let i = choose|i: int|
                0 <= i < assignments.drop_last().len() && (#[trigger] arrangements(
                    clustered(values, assignments.drop_last()[i]),
                )).contains(shape);
            assert(assignments.drop_last()[i] == assignments[i]);
            assert(arrangements(clustered(values, assignments[i])).contains(shape));
        } else {
            assert(arrangements(clustered(values, assignments[assignments.len() - 1])).contains(
                shape,
            ));
        }
    }
}

/// Every way to arrange `values` into runs holds as many cards as `values`.
pub proof fn lemma_sequential_runs_total(values: Seq<usize>, shape: Seq<Seq<usize>>)
    requires
        1 <= values.len() <= usize::MAX,
        sequential_runs(values).contains(shape),
    ensures
        crate::sizes::shape_total(shape) == crate::sizes::run_total(values),
{
    let assignments = crate::adjacency::adjacent_assignments(values.len());
    let found = arrangements_of_all(values, assignments);
    crate::sorting::lemma_first_of_each(found, canonical_form());
    assert(found.contains(shape));
    lemma_arrangements_of_all_members(values, assignments, shape);
    let i = choose|i: int|
        0 <= i < assignments.len() && (#[trigger] arrangements(
            clustered(values, assignments[i]),
        )).contains(shape);
    lemma_arrangements_total(clustered(values, assignments[i]), shape);
    assert(assignments.contains(assignments[i]));
    lemma_clustered_total(values, values.len(), assignments[i]);
    assert(values.take(values.len() as int) =~= values);
}

/// Every way to arrange sizes above 0 into runs is a proper shape.
pub proof fn lemma_sequential_runs_are_proper(values: Seq<usize>, shape: Seq<Seq<usize>>)
    requires
        1 <= values.len() <= usize::MAX,
        forall|i: int| 0 <= i < values.len() ==> #[trigger] values[i] >= 1,
        sequential_runs(values).contains(shape),
    ensures
        crate::sizes::is_proper(shape),
{
    let assignments = crate::adjacency::adjacent_assignments(values.len());
    let found = arrangements_of_all(values, assignments);
    crate::sorting::lemma_first_of_each(found, canonical_form());
    assert(found.contains(shape));
    lemma_arrangements_of_all_members(values, assignments, shape);
    let i = choose|i: int|
        0 <= i < assignments.len() && (#[trigger] arrangements(
            clustered(values, assignments[i]),
        )).contains(shape);
    let clusters = clustered(values, assignments[i]);
    crate::adjacency::lemma_assignments_are_clusterings(values.len());
    assert(crate::adjacency::is_clustering(assignments[i], values.len()));
    assert forall|c: int| 0 <= c < clusters.len() implies crate::sizes::is_proper_run(
        #[trigger] clusters[c],
    ) by {
        assert(assignments[i][c].len() >= 1);
        assert forall|x: int| 0 <= x < clusters[c].len() implies #[trigger] clusters[c][x]
            >= 1 by {
            assert(crate::adjacency::holds_at(assignments[i], c, x, assignments[i][c][x]));
        }
    }
    if all_uniform(clusters) {
        let j = choose|j: int|
            0 <= j < arrangements(clusters).len() && arrangements(clusters)[j] == shape;
        assert(shape == clusters);
    } else {
        lemma_product_members(orderings_of_each(clusters), shape);
        assert forall|c: int| 0 <= c < shape.len() implies crate::sizes::is_proper_run(
            #[trigger] shape[c],
        ) by {
            assert(orderings_of_each(clusters)[c].contains(shape[c]));
            lemma_orderings_rearrange(clusters[c], shape[c]);
            crate::sizes::lemma_rearranged_run_is_proper(shape[c], clusters[c]);
        }
    }
}

/// Two calls of `group_into_sequential_tuples` with the same sizes give the same list.
pub proof fn lemma_group_into_sequential_tuples_is_a_function(
    values: &[usize],
    first: Vec<PlayRequirements>,
    second: Vec<PlayRequirements>,
)
    requires
        call_ensures(group_into_sequential_tuples, (values,), first),
        call_ensures(group_into_sequential_tuples, (values,), second),
    ensures
        first.deep_view() == second.deep_view(),
{
}

/// A shape whose runs stand in order is in canonical form.
pub proof fn lemma_canonical_of_ordered(shape: Seq<Seq<usize>>)
    requires
        crate::sorting::in_order(shape, crate::sizes::descending()),
    ensures
        canonical(shape) == shape,
        canonical_form()(shape) == shape,
{
    crate::sorting::lemma_stable_sort_of_ordered(shape, crate::sizes::descending());
}

} // verus!
