use crate::memo::Memo;
use crate::runs::{distinct_shapes, sort_runs};
use crate::sizes::PlayRequirements;
use vstd::prelude::*;

verus! {

/// The place of the first single in `sizes`, or their number where none is single.
pub open spec fn first_single(sizes: Seq<usize>) -> int
    decreases sizes.len(),
{
    if sizes.len() == 0 {
        0
    } else if first_single(sizes.drop_last()) < sizes.len() - 1 {
        first_single(sizes.drop_last())
    } else if sizes.last() == 1 {
        sizes.len() - 1
    } else {
        sizes.len() as int
    }
}

/// `k` is the place of the first single in `sizes`, or their number where none is single.
pub open spec fn is_first_single(sizes: Seq<usize>, k: int) -> bool {
    &&& 0 <= k <= sizes.len()
    &&& forall|j: int| 0 <= j < k ==> sizes[j] != 1
    &&& k < sizes.len() ==> sizes[k] == 1
}

/// `first_single` gives the place of the first single.
pub proof fn lemma_first_single(sizes: Seq<usize>)
    ensures
        is_first_single(sizes, first_single(sizes)),
    decreases sizes.len(),
{
    if sizes.len() > 0 {
        let init = sizes.drop_last();
        lemma_first_single(init);
        let k = first_single(init);
        assert forall|j: int| 0 <= j < k implies sizes[j] != 1 by {
            assert(init[j] == sizes[j]);
        }
        if k < init.len() {
            assert(init[k] == sizes[k]);
        }
    }
}

/// Each size of `sizes` as a run of its own.
pub open spec fn each_alone(sizes: Seq<usize>) -> Seq<Seq<usize>> {
    Seq::new(sizes.len(), |i: int| seq![sizes[i]])
}

/// Each shape of `shapes` with the sizes of `rest` added as runs of their own, in
/// canonical form.
pub open spec fn completed(shapes: Seq<Seq<Seq<usize>>>, rest: Seq<usize>) -> Seq<Seq<Seq<usize>>> {
    Seq::new(shapes.len(), |i: int| crate::runs::canonical(shapes[i] + each_alone(rest)))
}

/// The shapes that the partition `part` gives, where `arranged` lists the ways to arrange
/// its sizes before the first single: each of them, completed by the other sizes as runs
/// of their own. Where `part` begins with a single, its one shape is all singles.
pub open spec fn shapes_of(part: Seq<usize>, arranged: Seq<Seq<Seq<usize>>>) -> Seq<Seq<Seq<usize>>> {
    if first_single(part) == 0 {
        seq![each_alone(part)]
    } else {
        completed(arranged, part.skip(first_single(part)))
    }
}

/// The shapes that the partition `part` gives. Its sizes before the first single are
/// arranged into runs in every way; the sizes from the first single on are runs of their
/// own.
pub open spec fn decompositions_of(part: Seq<usize>) -> Seq<Seq<Seq<usize>>> {
    shapes_of(part, crate::runs::sequential_runs(part.take(first_single(part))))
}

/// The shapes of each partition of `parts`, in turn.
pub open spec fn decompositions_of_all(parts: Seq<Seq<usize>>) -> Seq<Seq<Seq<usize>>>
    decreases parts.len(),
{
    if parts.len() == 0 {
        Seq::empty()
    } else {
        decompositions_of_all(parts.drop_last()) + decompositions_of(parts.last())
    }
}

/// Every shape that `n` cards can take, the most demanding first: the shapes of each
/// partition of `n`, greatest partition first, without those that reorder the runs of an
/// earlier one.
pub open spec fn full_decompositions(n: nat) -> Seq<Seq<Seq<usize>>> {
    crate::runs::distinct(decompositions_of_all(crate::partitions::tuple_partitions(n)))
}

/// The place of the first single in `sizes`.
fn first_single_in(sizes: &Vec<usize>) -> (k: usize)
    ensures
        k == first_single(sizes@),
{
    let mut k: usize = 0;
    while k < sizes.len() && sizes[k] != 1
        invariant
            k <= sizes.len(),
            forall|j: int| 0 <= j < k ==> sizes@[j] != 1,
        decreases sizes.len() - k,
    {
        k = k + 1;
    }
    proof {
        lemma_first_single(sizes@);
        let f = first_single(sizes@);
        if f < k {
            assert(sizes@[f] == 1);
        } else if k < f {
            assert(sizes@[k as int] != 1);
        }
    }
    k
}

/// Puts the sizes of `sizes` from place `from` on behind the runs of `shape`, each as a
/// run of its own.
fn push_each_alone(shape: &mut Vec<Vec<usize>>, sizes: &Vec<usize>, from: usize)
    requires
        from <= sizes.len(),
    ensures
        final(shape).deep_view() == old(shape).deep_view() + each_alone(sizes@.skip(from as int)),
{
    let ghost base = shape.deep_view();
    let ghost rest = sizes@.skip(from as int);
    let mut j: usize = from;
    assert(shape.deep_view() =~= base + each_alone(rest).take(0));
    while j < sizes.len()
        invariant
            from <= j <= sizes.len(),
            rest == sizes@.skip(from as int),
            shape.deep_view() == base + each_alone(rest).take(j - from),
        decreases sizes.len() - j,
    {
        let ghost held = *shape;
        let mut alone: Vec<usize> = Vec::new();
        alone.push(sizes[j]);
        shape.push(alone);
        proof {
            crate::views::lemma_shape_view_push(held, *shape, alone);
            assert(alone@ =~= seq![sizes@[j as int]]);
            assert(each_alone(rest).take(j - from + 1) =~= each_alone(rest).take(j - from).push(
                seq![sizes@[j as int]],
            ));
            assert(held.deep_view().push(alone@) =~= base + each_alone(rest).take(j - from + 1));
        }
        j = j + 1;
    }
    assert(each_alone(rest).take(sizes.len() - from) =~= each_alone(rest));
}

/// The sizes of `part` before its first single: the tuples that are arranged into runs.
pub fn leading_tuples(part: &Vec<usize>) -> (r: Vec<usize>)
    ensures
        r@ == part@.take(first_single(part@)),
{
    let k = first_single_in(part);
    let mut out: Vec<usize> = Vec::new();
    let mut i: usize = 0;
    while i < k
        invariant
            i <= k <= part.len(),
            out@ == part@.take(i as int),
        decreases k - i,
    {
        out.push(part[i]);
        assert(part@.take(i as int + 1) =~= part@.take(i as int).push(part@[i as int]));
        i = i + 1;
    }
    out
}

/// The shapes that each partition of `parts` gives, in turn, with the arrangements that
/// `arranged` lists for it.
pub open spec fn shapes_of_all(parts: Seq<Seq<usize>>, arranged: Seq<Seq<Seq<Seq<usize>>>>) -> Seq<
    Seq<Seq<usize>>,
>
    decreases parts.len(),
{
    if parts.len() == 0 {
        Seq::empty()
    } else {
        shapes_of_all(parts.drop_last(), arranged.drop_last()) + shapes_of(
            parts.last(),
            arranged.last(),
        )
    }
}

/// With the ways to arrange each partition for `arranged`, the shapes of all are the
/// decompositions of all.
pub proof fn lemma_shapes_of_all(parts: Seq<Seq<usize>>, arranged: Seq<Seq<Seq<Seq<usize>>>>)
    requires
        arranged.len() == parts.len(),
        forall|i: int|
            0 <= i < parts.len() && first_single(parts[i]) > 0 ==> #[trigger] arranged[i]
                == crate::runs::sequential_runs(parts[i].take(first_single(parts[i]))),
    ensures
        shapes_of_all(parts, arranged) == decompositions_of_all(parts),
    decreases parts.len(),
{
    if parts.len() > 0 {
        assert forall|i: int|
            0 <= i < parts.drop_last().len() && first_single(parts.drop_last()[i])
                > 0 implies #[trigger] arranged.drop_last()[i] == crate::runs::sequential_runs(
            parts.drop_last()[i].take(first_single(parts.drop_last()[i])),
        ) by {
            assert(parts.drop_last()[i] == parts[i]);
            assert(arranged.drop_last()[i] == arranged[i]);
        }
        lemma_shapes_of_all(parts.drop_last(), arranged.drop_last());
        let last = parts.len() - 1;
        assert(parts.last() == parts[last]);
        assert(arranged.last() == arranged[last]);
        lemma_first_single(parts[last]);
        if first_single(parts[last]) > 0 {
            assert(arranged[last] == crate::runs::sequential_runs(
                parts[last].take(first_single(parts[last])),
            ));
        }
        assert(shapes_of(parts.last(), arranged.last()) == decompositions_of(parts.last()));
    }
}

/// Puts the shapes of the partition `part` behind what `found` holds.
fn push_shapes(found: &mut Vec<Vec<Vec<usize>>>, part: &Vec<usize>, arranged: Vec<Vec<Vec<usize>>>)
    ensures
        final(found).deep_view() == old(found).deep_view() + shapes_of(
            part@,
            arranged.deep_view(),
        ),
{
    let ghost base = found.deep_view();
    let one_idx = first_single_in(part);
    if one_idx == 0 {
        let ghost held = *found;
        let mut shape: Vec<Vec<usize>> = Vec::new();
        push_each_alone(&mut shape, part, 0);
        found.push(shape);
        proof {
            assert(part@.skip(0) =~= part@);
            assert(shape.deep_view() =~= each_alone(part@));
            crate::views::lemma_deep_view_push(held, *found, shape);
            assert(held.deep_view().push(shape.deep_view()) =~= base + shapes_of(
                part@,
                arranged.deep_view(),
            ));
        }
    } else {
        let ghost listed = arranged.deep_view();
        let ghost rest = part@.skip(one_idx as int);
        assert(found.deep_view() =~= base + completed(listed, rest).take(0));
        for decomposition in it: arranged
            invariant
                one_idx <= part.len(),
                rest == part@.skip(one_idx as int),
                it.seq().len() == listed.len(),
                forall|i: int|
                    0 <= i < listed.len() ==> (#[trigger] it.seq()[i]).deep_view() == listed[i],
                found.deep_view() == base + completed(listed, rest).take(it.index() as int),
        {
            let ghost held = *found;
            let ghost i = it.index() as int;
            let mut decomposition = decomposition;
            push_each_alone(&mut decomposition, part, one_idx);
            let sorted = sort_runs(decomposition);
            found.push(sorted);
            proof {
                crate::views::lemma_deep_view_push(held, *found, sorted);
                assert(completed(listed, rest).take(i + 1) =~= completed(listed, rest).take(
                    i,
                ).push(sorted.deep_view()));
                assert(held.deep_view().push(sorted.deep_view()) =~= base + completed(
                    listed,
                    rest,
                ).take(i + 1));
            }
        }
        assert(completed(listed, rest).take(listed.len() as int) =~= completed(listed, rest));
    }
}

/// Every shape that `num_cards` cards can take, the most demanding first.
///
/// A shape is a list of runs; a size that stands alone is a run of its own. Single cards
/// are never held to be adjacent to anything.
pub fn full_decomposition_ordering(num_cards: usize) -> (r: Vec<PlayRequirements>)
    requires
        num_cards >= 1,
    ensures
        r.deep_view() == full_decompositions(num_cards as nat),
{
    let mut memo = Memo::new();
    memo.full_decomposition_ordering(num_cards)
}

/// The shapes that the partitions `groupings` give, in turn, with the arrangements that
/// `arranged` lists for each; a shape that reorders the runs of an earlier one is left
/// out.
pub fn decompositions_from(
    groupings: Vec<Vec<usize>>,
    arranged: Vec<Vec<Vec<Vec<usize>>>>,
) -> (r: Vec<PlayRequirements>)
    requires
        arranged.len() == groupings.len(),
    ensures
        r.deep_view() == crate::runs::distinct(
            shapes_of_all(groupings.deep_view(), arranged.deep_view()),
        ),
{
    let ghost parts = groupings.deep_view();
    let ghost lists = arranged.deep_view();
    let mut full_decomp: Vec<Vec<Vec<usize>>> = Vec::new();
    proof {
        crate::views::lemma_shape_view(groupings);
        assert(full_decomp.deep_view() =~= shapes_of_all(parts.take(0), lists.take(0)));
    }
    let mut g: usize = 0;
    for shapes in it: arranged
        invariant
            g == it.index(),
            it.seq().len() == lists.len(),
            lists.len() == groupings.len(),
            forall|i: int| 0 <= i < lists.len() ==> (#[trigger] it.seq()[i]).deep_view() == lists[i],
            parts == groupings.deep_view(),
            parts.len() == groupings@.len(),
            forall|i: int| 0 <= i < groupings@.len() ==> #[trigger] parts[i] == groupings@[i]@,
            full_decomp.deep_view() == shapes_of_all(parts.take(g as int), lists.take(g as int)),
    {
        proof {
            assert(parts.take(g as int + 1).drop_last() =~= parts.take(g as int));
            assert(parts.take(g as int + 1).last() == groupings@[g as int]@);
            assert(lists.take(g as int + 1).drop_last() =~= lists.take(g as int));
            assert(lists.take(g as int + 1).last() == shapes.deep_view());
        }
        push_shapes(&mut full_decomp, &groupings[g], shapes);
        g = g + 1;
    }
    proof {
        assert(parts.take(parts.len() as int) =~= parts);
        assert(lists.take(lists.len() as int) =~= lists);
    }
    distinct_shapes(full_decomp)
}

/// Sizes that stand each alone hold as many cards as the sizes together.
pub proof fn lemma_each_alone_total(sizes: Seq<usize>)
    ensures
        crate::sizes::shape_total(each_alone(sizes)) == crate::sizes::run_total(sizes),
    decreases sizes.len(),
{
    if sizes.len() > 0 {
        lemma_each_alone_total(sizes.drop_last());
        assert(each_alone(sizes).drop_last() =~= each_alone(sizes.drop_last()));
        let alone = seq![sizes.last()];
        assert(each_alone(sizes).last() == alone);
        assert(alone.drop_last() =~= Seq::<usize>::empty());
        assert(crate::sizes::run_total(alone.drop_last()) == 0);
    }
}

/// Every shape that a partition gives holds as many cards as the partition.
pub proof fn lemma_decompositions_of_total(part: Seq<usize>, shape: Seq<Seq<usize>>)
    requires
        part.len() <= usize::MAX,
        decompositions_of(part).contains(shape),
    ensures
        crate::sizes::shape_total(shape) == crate::sizes::run_total(part),
{
    let k = first_single(part);
    lemma_first_single(part);
    let listed = decompositions_of(part);
    let i = choose|i: int| 0 <= i < listed.len() && listed[i] == shape;
    if k == 0 {
        lemma_each_alone_total(part);
    } else {
        let arranged = crate::runs::sequential_runs(part.take(k));
        let rest = part.skip(k);
        assert(shape == crate::runs::canonical(arranged[i] + each_alone(rest)));
        crate::sizes::lemma_sorted_shape_total(
            arranged[i] + each_alone(rest),
            crate::sizes::descending(),
        );
        crate::sizes::lemma_shape_total_concat(arranged[i], each_alone(rest));
        lemma_each_alone_total(rest);
        assert(arranged.contains(arranged[i]));
        crate::runs::lemma_sequential_runs_total(part.take(k), arranged[i]);
        assert(part =~= part.take(k) + part.skip(k));
        crate::sizes::lemma_run_total_concat(part.take(k), part.skip(k));
    }
}

/// Every shape that a partition gives is a proper shape.
pub proof fn lemma_decompositions_of_are_proper(part: Seq<usize>, n: nat, shape: Seq<Seq<usize>>)
    requires
        n <= usize::MAX,
        crate::partitions::is_partition(part, n),
        decompositions_of(part).contains(shape),
    ensures
        crate::sizes::is_proper(shape),
{
    let k = first_single(part);
    lemma_first_single(part);
    crate::partitions::lemma_total_bounds(part);
    let listed = decompositions_of(part);
    let i = choose|i: int| 0 <= i < listed.len() && listed[i] == shape;
    if k == 0 {
        assert(shape == each_alone(part));
    } else {
        let arranged = crate::runs::sequential_runs(part.take(k));
        let rest = part.skip(k);
        let joined = arranged[i] + each_alone(rest);
        assert(shape == crate::runs::canonical(joined));
        assert(arranged.contains(arranged[i]));
        crate::runs::lemma_sequential_runs_are_proper(part.take(k), arranged[i]);
        assert forall|r: int| 0 <= r < joined.len() implies crate::sizes::is_proper_run(
            #[trigger] joined[r],
        ) by {
            if r >= arranged[i].len() {
                assert(joined[r] == each_alone(rest)[r - arranged[i].len()]);
            } else {
                assert(joined[r] == arranged[i][r]);
            }
        }
        crate::sizes::lemma_sorted_shape_is_proper(joined, crate::sizes::descending());
    }
}

/// What `decompositions_of_all` holds: shapes that one of the partitions gives.
pub proof fn lemma_decompositions_of_all_members(parts: Seq<Seq<usize>>, shape: Seq<Seq<usize>>)
    requires
        decompositions_of_all(parts).contains(shape),
    ensures
        exists|i: int|
            0 <= i < parts.len() && (#[trigger] decompositions_of(parts[i])).contains(shape),
    decreases parts.len(),
{
    if parts.len() > 0 {
        let a = decompositions_of_all(parts.drop_last());
        let b = decompositions_of(parts.last());
        vstd::seq_lib::lemma_seq_concat_contains_all_elements(a, b, shape);
        if a.contains(shape) {
            lemma_decompositions_of_all_members(parts.drop_last(), shape);
            let i = choose|i: int|
                0 <= i < parts.drop_last().len() && (#[trigger] decompositions_of(
                    parts.drop_last()[i],
                )).contains(shape);
            assert(parts.drop_last()[i] == parts[i]);
            assert(decompositions_of(parts[i]).contains(shape));
        } else {
            assert(decompositions_of(parts[parts.len() - 1]).contains(shape));
        }
    }
}

/// Every shape of `n` cards holds `n` cards: its runs sum to `n`. None of its runs is
/// empty, and none of its sizes is 0.
pub proof fn lemma_full_decompositions_total(n: nat, i: int)
    requires
        n <= usize::MAX,
        0 <= i < full_decompositions(n).len(),
    ensures
        crate::sizes::shape_total(full_decompositions(n)[i]) == n,
        crate::sizes::is_proper(full_decompositions(n)[i]),
{
    let parts = crate::partitions::tuple_partitions(n);
    let found = decompositions_of_all(parts);
    let shape = full_decompositions(n)[i];
    crate::sorting::lemma_first_of_each(found, crate::runs::canonical_form());
    assert(full_decompositions(n).contains(shape));
    assert(found.contains(shape));
    lemma_decompositions_of_all_members(parts, shape);
    let p = choose|p: int|
        0 <= p < parts.len() && (#[trigger] decompositions_of(parts[p])).contains(shape);
    crate::partitions::lemma_tuple_partitions(n);
    assert(crate::partitions::is_partition(parts[p], n));
    crate::partitions::lemma_total_bounds(parts[p]);
    lemma_decompositions_of_total(parts[p], shape);
    lemma_decompositions_of_are_proper(parts[p], n, shape);
}

/// No two shapes of `n` cards are the same, nor does one reorder the runs of another.
pub proof fn lemma_full_decompositions_are_distinct(n: nat, i: int, j: int)
    requires
        0 <= i < j < full_decompositions(n).len(),
    ensures
        crate::runs::canonical(full_decompositions(n)[i]) != crate::runs::canonical(
            full_decompositions(n)[j],
        ),
        full_decompositions(n)[i] != full_decompositions(n)[j],
{
    crate::sorting::lemma_first_of_each(
        decompositions_of_all(crate::partitions::tuple_partitions(n)),
        crate::runs::canonical_form(),
    );
}

/// The shapes of the first partition stand first among the shapes of all.
proof fn lemma_decompositions_of_all_first(parts: Seq<Seq<usize>>)
    requires
        parts.len() > 0,
        decompositions_of(parts[0]).len() > 0,
    ensures
        decompositions_of_all(parts).len() > 0,
        decompositions_of_all(parts)[0] == decompositions_of(parts[0])[0],
    decreases parts.len(),
{
    if parts.len() > 1 {
        assert(parts.drop_last()[0] == parts[0]);
        lemma_decompositions_of_all_first(parts.drop_last());
    } else {
        assert(parts.drop_last() =~= Seq::<Seq<usize>>::empty());
        assert(decompositions_of_all(parts.drop_last()) =~= Seq::<Seq<Seq<usize>>>::empty());
    }
}

/// The first shape of `n` cards is the single run of one tuple of `n` cards.
pub proof fn lemma_full_decompositions_first(n: nat)
    requires
        1 <= n <= usize::MAX,
    ensures
        full_decompositions(n).len() > 0,
        full_decompositions(n)[0] == seq![seq![n as usize]],
{
    let parts = crate::partitions::tuple_partitions(n);
    let whole = seq![n as usize];
    // the first partition is the whole
    let rests = crate::partitions::partitions_capped(0, n);
    assert(rests =~= seq![Seq::<usize>::empty()]);
    let with_cap = crate::partitions::prepend_each(n as usize, rests);
    assert(parts == with_cap + crate::partitions::partitions_capped(n, (n - 1) as nat));
    assert(with_cap[0] =~= whole);
    assert(parts[0] == whole);
    // its one shape is the single run
    assert(whole.drop_last() =~= Seq::<usize>::empty());
    assert(first_single(whole.drop_last()) == 0);
    if n == 1 {
        assert(each_alone(whole) =~= seq![whole]);
        assert(decompositions_of(whole) =~= seq![seq![whole]]);
    } else {
        assert(first_single(whole) == 1);
        assert(whole.take(1) =~= whole);
        assert(whole.skip(1) =~= Seq::<usize>::empty());
        lemma_sequential_runs_of_one(n as usize);
        assert(each_alone(Seq::<usize>::empty()) =~= Seq::<Seq<usize>>::empty());
        assert(seq![whole] + Seq::<Seq<usize>>::empty() =~= seq![whole]);
        lemma_canonical_of_one(whole);
        assert(decompositions_of(whole) =~= seq![seq![whole]]);
    }
    lemma_decompositions_of_all_first(parts);
    crate::sorting::lemma_first_of_each(
        decompositions_of_all(parts),
        crate::runs::canonical_form(),
    );
}

/// A shape of one run is in canonical form.
pub proof fn lemma_canonical_of_one(run: Seq<usize>)
    ensures
        crate::runs::canonical(seq![run]) == seq![run],
{
    let shape = seq![run];
    assert(shape.drop_last() =~= Seq::<Seq<usize>>::empty());
    assert(crate::sorting::stable_sort(shape.drop_last(), crate::sizes::descending())
        =~= Seq::<Seq<usize>>::empty());
    assert(Seq::<Seq<usize>>::empty().push(run) =~= shape);
}

/// One size can be arranged in one way.
pub proof fn lemma_sequential_runs_of_one(size: usize)
    ensures
        crate::runs::sequential_runs(seq![size]) == seq![seq![seq![size]]],
{
    let values = seq![size];
    let only = seq![seq![0usize]];
    let assignments = crate::adjacency::adjacent_assignments(1);
    assert(assignments =~= seq![only]);
    let clusters = crate::runs::clustered(values, only);
    assert(clusters[0] =~= values);
    assert(clusters =~= seq![values]);
    assert(crate::runs::all_uniform(clusters));
    assert(assignments.drop_last() =~= Seq::<Seq<Seq<usize>>>::empty());
    assert(crate::runs::arrangements_of_all(values, assignments.drop_last())
        =~= Seq::<Seq<Seq<usize>>>::empty());
    let found = crate::runs::arrangements_of_all(values, assignments);
    assert(found =~= seq![clusters]);
    lemma_distinct_of_one(clusters);
}

/// A list of one shape holds no shape twice.
pub proof fn lemma_distinct_of_one(shape: Seq<Seq<usize>>)
    ensures
        crate::runs::distinct(seq![shape]) == seq![shape],
{
    let list = seq![shape];
    assert(list.drop_last() =~= Seq::<Seq<Seq<usize>>>::empty());
    assert(!crate::sorting::has_key(
        list.drop_last(),
        crate::runs::canonical_form(),
        crate::runs::canonical_form()(list.last()),
    ));
    assert(crate::sorting::first_of_each(list.drop_last(), crate::runs::canonical_form())
        =~= Seq::<Seq<Seq<usize>>>::empty());
    assert(Seq::<Seq<Seq<usize>>>::empty().push(shape) =~= list);
}

/// Two calls of `full_decomposition_ordering` with one number give the same list.
pub proof fn lemma_full_decomposition_ordering_is_a_function(
    num_cards: usize,
    first: Vec<PlayRequirements>,
    second: Vec<PlayRequirements>,
)
    requires
        call_ensures(full_decomposition_ordering, (num_cards,), first),
        call_ensures(full_decomposition_ordering, (num_cards,), second),
    ensures
        first.deep_view() == second.deep_view(),
{
}

} // verus!
