use crate::memo::Memo;
use crate::sizes::{copy_shape, same_runs};
use crate::sorting::{drop_repeats, sort_stably};
use vstd::prelude::*;

verus! {

/// The clustering `part` with `label` added to cluster `c`.
pub open spec fn joined(part: Seq<Seq<usize>>, c: int, label: usize) -> Seq<Seq<usize>> {
    part.update(c, part[c].push(label))
}

/// The clustering `part` with `label` as a cluster of its own, behind the others.
pub open spec fn set_apart(part: Seq<Seq<usize>>, label: usize) -> Seq<Seq<usize>> {
    part.push(seq![label])
}

/// What `label` makes of the clustering `part`: it joins each cluster in turn, and last it
/// stands alone.
pub open spec fn extensions(part: Seq<Seq<usize>>, label: usize) -> Seq<Seq<Seq<usize>>> {
    Seq::new(
        part.len() + 1,
        |c: int|
            if c < part.len() {
                joined(part, c, label)
            } else {
                set_apart(part, label)
            },
    )
}

/// The extensions of each clustering of `parts`, in turn.
pub open spec fn all_extensions(parts: Seq<Seq<Seq<usize>>>, label: usize) -> Seq<
    Seq<Seq<usize>>,
>
    decreases parts.len(),
{
    if parts.len() == 0 {
        Seq::empty()
    } else {
        all_extensions(parts.drop_last(), label) + extensions(parts.last(), label)
    }
}

/// The size of the largest cluster of `part`; 0 where it has none.
pub open spec fn largest_cluster(part: Seq<Seq<usize>>) -> nat
    decreases part.len(),
{
    if part.len() == 0 {
        0
    } else if part.last().len() > largest_cluster(part.drop_last()) {
        part.last().len()
    } else {
        largest_cluster(part.drop_last())
    }
}

/// The order of the clusterings: the one with the larger largest cluster first, and of two
/// that agree in that, the one with fewer clusters.
pub open spec fn coarser_first() -> spec_fn(Seq<Seq<usize>>, Seq<Seq<usize>>) -> bool {
    |a: Seq<Seq<usize>>, b: Seq<Seq<usize>>|
        largest_cluster(a) > largest_cluster(b) || (largest_cluster(a) == largest_cluster(b)
            && a.len() < b.len())
}

/// The ways to group the labels `0 .. k` into clusters. For one label there is one. For
/// more, each clustering of the labels before the last is extended by the last label; the
/// results are sorted stably, coarser first, and repeats are dropped.
pub open spec fn adjacent_assignments(k: nat) -> Seq<Seq<Seq<usize>>>
    decreases k,
{
    if k <= 1 {
        seq![seq![seq![0usize]]]
    } else {
        crate::sorting::without_repeats(
            crate::sorting::stable_sort(
                all_extensions(adjacent_assignments((k - 1) as nat), (k - 1) as usize),
                coarser_first(),
            ),
        )
    }
}

/// The size of the largest cluster of `part`.
fn largest_cluster_of(part: &Vec<Vec<usize>>) -> (r: usize)
    ensures
        r == largest_cluster(part.deep_view()),
{
    let mut largest: usize = 0;
    let mut i: usize = 0;
    proof {
        crate::views::lemma_shape_view(*part);
    }
    while i < part.len()
        invariant
            i <= part.len(),
            part.deep_view().len() == part@.len(),
            forall|j: int| 0 <= j < part@.len() ==> #[trigger] part.deep_view()[j] == part@[j]@,
            largest == largest_cluster(part.deep_view().take(i as int)),
        decreases part.len() - i,
    {
        proof {
            let now = part.deep_view().take(i as int + 1);
            assert(now.drop_last() =~= part.deep_view().take(i as int));
            assert(now.last() == part@[i as int]@);
        }
        if part[i].len() > largest {
            largest = part[i].len();
        }
        i = i + 1;
    }
    assert(part.deep_view().take(part.len() as int) =~= part.deep_view());
    largest
}

/// Whether the clustering `a` is listed before `b`.
pub fn coarser_precedes(a: &Vec<Vec<usize>>, b: &Vec<Vec<usize>>) -> (r: bool)
    ensures
        r == coarser_first()(a.deep_view(), b.deep_view()),
{
    let la = largest_cluster_of(a);
    let lb = largest_cluster_of(b);
    proof {
        crate::views::lemma_shape_view(*a);
        crate::views::lemma_shape_view(*b);
    }
    la > lb || (la == lb && a.len() < b.len())
}

/// Puts the extensions of `part` by `label` behind what `assignments` holds.
fn push_extensions(assignments: &mut Vec<Vec<Vec<usize>>>, part: Vec<Vec<usize>>, label: usize)
    ensures
        final(assignments).deep_view() == old(assignments).deep_view() + extensions(
            part.deep_view(),
            label,
        ),
{
    let ghost base = assignments.deep_view();
    let ghost given = part.deep_view();
    let mut part = part;
    let mut c: usize = 0;
    proof {
        crate::views::lemma_shape_view(part);
        assert(assignments.deep_view() =~= base + extensions(given, label).take(0));
    }
    while c < part.len()
        invariant
            c <= part.len(),
            part.deep_view() == given,
            assignments.deep_view() == base + extensions(given, label).take(c as int),
        decreases part.len() - c,
    {
        let ghost held = *assignments;
        let ghost untouched = part;
        proof {
            crate::views::lemma_shape_view(untouched);
        }
        part[c].push(label);
        let variant = copy_shape(&part);
        proof {
            crate::views::lemma_shape_view(part);
            assert(part.deep_view() =~= joined(given, c as int, label));
        }
        assignments.push(variant);
        part[c].pop();
        proof {
            crate::views::lemma_shape_view(part);
            assert(untouched@[c as int]@.push(label).drop_last() =~= untouched@[c as int]@);
            assert(part.deep_view() =~= given);
            crate::views::lemma_deep_view_push(held, *assignments, variant);
            assert(extensions(given, label).take(c as int + 1) =~= extensions(given, label).take(
                c as int,
            ).push(joined(given, c as int, label)));
            assert(held.deep_view().push(variant.deep_view()) =~= base + extensions(
                given,
                label,
            ).take(c as int + 1));
        }
        c = c + 1;
    }
    let ghost held = *assignments;
    let ghost untouched = part;
    let mut alone: Vec<usize> = Vec::new();
    alone.push(label);
    part.push(alone);
    proof {
        crate::views::lemma_shape_view_push(untouched, part, alone);
        assert(alone@ =~= seq![label]);
    }
    assignments.push(part);
    proof {
        crate::views::lemma_deep_view_push(held, *assignments, part);
        let all = extensions(given, label);
        assert(all.take(given.len() as int).push(set_apart(given, label)) =~= all);
        assert(held.deep_view().push(part.deep_view()) =~= base + all);
    }
}

/// Every way to group the positions `0 .. length` into clusters, the coarsest first.
pub fn compute_adjacent_assignments(length: usize) -> (r: Vec<Vec<Vec<usize>>>)
    requires
        length >= 1,
    ensures
        r.deep_view() == adjacent_assignments(length as nat),
{
    let mut memo = Memo::new();
    memo.compute_adjacent_assignments(length)
}

/// The clusterings of `length` positions, made from those of one position less: each of
/// those is extended by the last position, and the extensions are sorted stably, the
/// coarsest first, and freed of repeats. One position has one clustering, for which
/// `shorter` is not looked at.
pub fn assignments_from(shorter: Vec<Vec<Vec<usize>>>, length: usize) -> (r: Vec<Vec<Vec<usize>>>)
    requires
        length >= 1,
        length >= 2 ==> shorter.deep_view() == adjacent_assignments((length - 1) as nat),
    ensures
        r.deep_view() == adjacent_assignments(length as nat),
{
    if length == 1 {
        let r = vec![vec![vec![0usize]]];
        proof {
            crate::views::lemma_shape_view(r@[0]);
            assert(r@[0]@[0]@ =~= seq![0usize]);
            assert(r@[0].deep_view() =~= seq![seq![0usize]]);
            assert(r.deep_view() =~= seq![seq![seq![0usize]]]);
        }
        return r;
    }
    let elem = length - 1;
    let mut assignments: Vec<Vec<Vec<usize>>> = Vec::new();
    let ghost parts = shorter.deep_view();
    proof {
        assert(assignments.deep_view() =~= all_extensions(parts.take(0), elem));
    }
    for part in it: shorter
        invariant
            it.seq().len() == parts.len(),
            forall|i: int| 0 <= i < parts.len() ==> (#[trigger] it.seq()[i]).deep_view() == parts[i],
            assignments.deep_view() == all_extensions(parts.take(it.index() as int), elem),
    {
        proof {
            let i = it.index() as int;
            assert(parts.take(i + 1).drop_last() =~= parts.take(i));
            assert(parts.take(i + 1).last() == part.deep_view());
        }
        push_extensions(&mut assignments, part, elem);
    }
    proof {
        assert(parts.take(parts.len() as int) =~= parts);
        crate::views::lemma_shapes_model(assignments);
    }
    let sorted = sort_stably::<Vec<Vec<usize>>, Seq<Seq<usize>>, _>(
        assignments,
        coarser_precedes,
        Ghost(crate::views::shape_model()),
        Ghost(coarser_first()),
    );
    let distinct = drop_repeats::<Vec<Vec<usize>>, Seq<Seq<usize>>, _>(
        sorted,
        same_runs,
        Ghost(crate::views::shape_model()),
    );
    proof {
        crate::views::lemma_shapes_model(distinct);
    }
    distinct
}

/// Cluster `c` of `a` holds `label` at place `i`.
pub open spec fn holds_at(a: Seq<Seq<usize>>, c: int, i: int, label: usize) -> bool {
    0 <= c < a.len() && 0 <= i < a[c].len() && a[c][i] == label
}

/// Some cluster of `a` holds `label`.
pub open spec fn is_placed(a: Seq<Seq<usize>>, label: usize) -> bool {
    exists|c: int, i: int| #[trigger] holds_at(a, c, i, label)
}

/// `a` groups the labels `0 .. k`: no cluster is empty, and each label below `k`, and
/// nothing else, stands in exactly one place.
pub open spec fn is_clustering(a: Seq<Seq<usize>>, k: nat) -> bool {
    &&& forall|c: int| 0 <= c < a.len() ==> (#[trigger] a[c]).len() >= 1
    &&& forall|c: int, i: int, label: usize| #[trigger] holds_at(a, c, i, label) ==> label < k
    &&& forall|label: usize| label < k ==> #[trigger] is_placed(a, label)
    &&& forall|c: int, i: int, d: int, j: int, label: usize|
        #[trigger] holds_at(a, c, i, label) && #[trigger] holds_at(a, d, j, label) ==> c == d && i
            == j
}

/// A clustering of the labels below `k`, extended by the label `k`, groups the labels
/// below `k + 1`.
pub proof fn lemma_extension_is_clustering(part: Seq<Seq<usize>>, k: nat, c: int)
    requires
        is_clustering(part, k),
        k <= usize::MAX,
        0 <= c <= part.len(),
    ensures
        is_clustering(extensions(part, k as usize)[c], k + 1),
{
    let new = k as usize;
    let e = extensions(part, new)[c];
    // where a label of `e` stands in `part`, unless it is the new one
    assert forall|d: int, i: int, label: usize| #[trigger] holds_at(e, d, i, label) implies label
        < k + 1 && (label != new ==> holds_at(part, d, i, label)) && (label == new ==> d == c && i
        == e[c].len() - 1) by {
        if c < part.len() {
            if d == c {
                if i < part[c].len() {
                    assert(holds_at(part, d, i, label));
                }
            } else {
                assert(holds_at(part, d, i, label));
            }
        } else {
            if d < part.len() {
                assert(holds_at(part, d, i, label));
            }
        }
    }
    assert forall|label: usize| label < k + 1 implies #[trigger] is_placed(e, label) by {
        if label == new {
            assert(holds_at(e, c, e[c].len() - 1, label));
        } else {
            assert(is_placed(part, label));
            let (d, i) = choose|d: int, i: int| #[trigger] holds_at(part, d, i, label);
            assert(holds_at(e, d, i, label));
        }
    }
    assert forall|d: int, i: int, f: int, j: int, label: usize|
        #[trigger] holds_at(e, d, i, label) && #[trigger] holds_at(e, f, j, label) implies d == f
        && i == j by {
        if label != new {
            assert(holds_at(part, d, i, label));
            assert(holds_at(part, f, j, label));
        }
    }
    assert forall|d: int| 0 <= d < e.len() implies (#[trigger] e[d]).len() >= 1 by {
        if d < part.len() {
            assert(part[d].len() >= 1);
        }
    }
}

/// What `all_extensions` holds: the extensions of the clusterings of `parts`.
pub proof fn lemma_all_extensions_members(parts: Seq<Seq<Seq<usize>>>, label: usize)
    ensures
        forall|e: Seq<Seq<usize>>|
            all_extensions(parts, label).contains(e) <==> exists|i: int, c: int|
                0 <= i < parts.len() && 0 <= c <= parts[i].len() && e == #[trigger] extensions(
                    parts[i],
                    label,
                )[c],
    decreases parts.len(),
{
    if parts.len() > 0 {
        let init = parts.drop_last();
        lemma_all_extensions_members(init, label);
        let a = all_extensions(init, label);
        let b = extensions(parts.last(), label);
        assert forall|e: Seq<Seq<usize>>|
            all_extensions(parts, label).contains(e) <==> exists|i: int, c: int|
                0 <= i < parts.len() && 0 <= c <= parts[i].len() && e == #[trigger] extensions(
                    parts[i],
                    label,
                )[c] by {
            vstd::seq_lib::lemma_seq_concat_contains_all_elements(a, b, e);
            if a.contains(e) {
                let (i, c) = choose|i: int, c: int|
                    0 <= i < init.len() && 0 <= c <= init[i].len() && e == #[trigger] extensions(
                        init[i],
                        label,
                    )[c];
                assert(init[i] == parts[i]);
                assert(e == extensions(parts[i], label)[c]);
            }
            if b.contains(e) {
                let c = choose|c: int| 0 <= c < b.len() && b[c] == e;
                assert(e == extensions(parts[parts.len() - 1], label)[c]);
            }
            if exists|i: int, c: int|
                0 <= i < parts.len() && 0 <= c <= parts[i].len() && e == #[trigger] extensions(
                    parts[i],
                    label,
                )[c] {
                let (i, c) = choose|i: int, c: int|
                    0 <= i < parts.len() && 0 <= c <= parts[i].len() && e == #[trigger] extensions(
                        parts[i],
                        label,
                    )[c];
                if i < init.len() {
                    assert(init[i] == parts[i]);
                    assert(e == extensions(init[i], label)[c]);
                    assert(a.contains(e));
                } else {
                    assert(b[c] == e);
                    assert(b.contains(e));
                }
            }
        }
    }
}

/// Every clustering of `adjacent_assignments(k)`, for `k` above one, extends a clustering
/// of `adjacent_assignments(k - 1)` by the label `k - 1`.
pub proof fn lemma_assignment_extends(k: nat, a: Seq<Seq<usize>>)
    requires
        k >= 2,
        adjacent_assignments(k).contains(a),
    ensures
        exists|i: int, c: int|
            0 <= i < adjacent_assignments((k - 1) as nat).len() && 0 <= c
                <= adjacent_assignments((k - 1) as nat)[i].len() && a == #[trigger] extensions(
                adjacent_assignments((k - 1) as nat)[i],
                (k - 1) as usize,
            )[c],
{
    let parts = adjacent_assignments((k - 1) as nat);
    let raw = all_extensions(parts, (k - 1) as usize);
    let sorted = crate::sorting::stable_sort(raw, coarser_first());
    crate::sorting::lemma_without_repeats_members(sorted);
    crate::sorting::lemma_stable_sort_contains(raw, coarser_first());
    lemma_all_extensions_members(parts, (k - 1) as usize);
    assert(sorted.contains(a));
    assert(raw.contains(a));
}

/// Every entry of `adjacent_assignments(k)` groups the labels `0 .. k`.
pub proof fn lemma_assignments_are_clusterings(k: nat)
    requires
        1 <= k <= usize::MAX,
    ensures
        forall|i: int|
            0 <= i < adjacent_assignments(k).len() ==> is_clustering(
                #[trigger] adjacent_assignments(k)[i],
                k,
            ),
    decreases k,
{
    if k == 1 {
        let a = seq![seq![0usize]];
        assert(adjacent_assignments(1) =~= seq![a]);
        assert(holds_at(a, 0, 0, 0usize));
        assert(is_clustering(a, 1));
    } else {
        let parts = adjacent_assignments((k - 1) as nat);
        lemma_assignments_are_clusterings((k - 1) as nat);
        assert forall|i: int| 0 <= i < adjacent_assignments(k).len() implies is_clustering(
            #[trigger] adjacent_assignments(k)[i],
            k,
        ) by {
            let a = adjacent_assignments(k)[i];
            assert(adjacent_assignments(k).contains(a));
            lemma_assignment_extends(k, a);
            let (j, c) = choose|j: int, c: int|
                0 <= j < parts.len() && 0 <= c <= parts[j].len() && a == #[trigger] extensions(
                    parts[j],
                    (k - 1) as usize,
                )[c];
            lemma_extension_is_clustering(parts[j], (k - 1) as nat, c);
        }
    }
}

/// The labels of `cluster` stand in ascending order.
pub open spec fn is_ascending(cluster: Seq<usize>) -> bool {
    forall|i: int, j: int| 0 <= i < j < cluster.len() ==> cluster[i] < cluster[j]
}

/// `a` groups the labels `0 .. k` and is written in the one way in which a grouping is
/// listed: each cluster in ascending order, and the clusters in the order of their first
/// labels.
pub open spec fn is_listed_form(a: Seq<Seq<usize>>, k: nat) -> bool {
    &&& is_clustering(a, k)
    &&& forall|c: int| 0 <= c < a.len() ==> is_ascending(#[trigger] a[c])
    &&& forall|c: int, d: int| 0 <= c < d < a.len() ==> (#[trigger] a[c])[0] < (#[trigger] a[d])[0]
}

/// A grouping in listed form, extended by the next label, is in listed form.
pub proof fn lemma_extension_is_listed_form(part: Seq<Seq<usize>>, k: nat, c: int)
    requires
        is_listed_form(part, k),
        k <= usize::MAX,
        0 <= c <= part.len(),
    ensures
        is_listed_form(extensions(part, k as usize)[c], k + 1),
{
    let new = k as usize;
    let e = extensions(part, new)[c];
    lemma_extension_is_clustering(part, k, c);
    assert forall|d: int| 0 <= d < e.len() implies is_ascending(#[trigger] e[d]) by {
        if d < part.len() {
            assert(is_ascending(part[d]));
            assert forall|i: int, j: int| 0 <= i < j < e[d].len() implies e[d][i] < e[d][j] by {
                if j < part[d].len() {
                    assert(e[d][i] == part[d][i] && e[d][j] == part[d][j]);
                } else {
                    assert(holds_at(part, d, i, part[d][i]));
                }
            }
        }
    }
    assert forall|x: int, y: int| 0 <= x < y < e.len() implies (#[trigger] e[x])[0] < (
    #[trigger] e[y])[0] by {
        assert(part[x].len() >= 1);
        if y < part.len() {
            assert(part[y].len() >= 1);
            assert(e[x][0] == part[x][0] && e[y][0] == part[y][0]);
            assert(part[x][0] < part[y][0]);
        } else {
            assert(holds_at(part, x, 0, part[x][0]));
        }
    }
}

/// Every entry of `adjacent_assignments(k)` is in listed form.
pub proof fn lemma_assignments_are_in_listed_form(k: nat)
    requires
        1 <= k <= usize::MAX,
    ensures
        forall|i: int|
            0 <= i < adjacent_assignments(k).len() ==> is_listed_form(
                #[trigger] adjacent_assignments(k)[i],
                k,
            ),
    decreases k,
{
    if k == 1 {
        let a = seq![seq![0usize]];
        assert(adjacent_assignments(1) =~= seq![a]);
        assert(holds_at(a, 0, 0, 0usize));
        assert(is_clustering(a, 1));
        assert(is_listed_form(a, 1));
    } else {
        let parts = adjacent_assignments((k - 1) as nat);
        lemma_assignments_are_in_listed_form((k - 1) as nat);
        assert forall|i: int| 0 <= i < adjacent_assignments(k).len() implies is_listed_form(
            #[trigger] adjacent_assignments(k)[i],
            k,
        ) by {
            let a = adjacent_assignments(k)[i];
            assert(adjacent_assignments(k).contains(a));
            lemma_assignment_extends(k, a);
            let (j, c) = choose|j: int, c: int|
                0 <= j < parts.len() && 0 <= c <= parts[j].len() && a == #[trigger] extensions(
                    parts[j],
                    (k - 1) as usize,
                )[c];
            lemma_extension_is_listed_form(parts[j], (k - 1) as nat, c);
        }
    }
}

/// A grouping of more than one label, in listed form, extends a grouping of the labels
/// before the last, in listed form.
proof fn lemma_listed_form_extends(a: Seq<Seq<usize>>, k: nat) -> (r: (Seq<Seq<usize>>, int))
    requires
        2 <= k <= usize::MAX,
        is_listed_form(a, k),
    ensures
        is_listed_form(r.0, (k - 1) as nat),
        0 <= r.1 <= r.0.len(),
        a == extensions(r.0, (k - 1) as usize)[r.1],
{
    let new = (k - 1) as usize;
    assert(is_placed(a, new));
    let (x, i) = choose|x: int, i: int| #[trigger] holds_at(a, x, i, new);
    // the last label stands last in its cluster
    assert(i == a[x].len() - 1) by {
        if i < a[x].len() - 1 {
            assert(holds_at(a, x, i + 1, a[x][i + 1]));
            assert(a[x][i] < a[x][i + 1]);
        }
    }
    if a[x].len() == 1 {
        // and a cluster that it has for itself is the last cluster
        assert(x == a.len() - 1) by {
            if x < a.len() - 1 {
                assert(a[x + 1].len() >= 1);
                assert(holds_at(a, x + 1, 0, a[x + 1][0]));
                assert(a[x][0] < a[x + 1][0]);
            }
        }
        let part = a.drop_last();
        assert(a[x] =~= seq![new]);
        assert(set_apart(part, new) =~= a);
        assert(is_listed_form(part, (k - 1) as nat)) by {
            assert forall|c: int, j: int, label: usize| #[trigger]
                holds_at(part, c, j, label) implies label < k - 1 by {
                assert(holds_at(a, c, j, label));
            }
            assert forall|label: usize| label < k - 1 implies #[trigger] is_placed(
                part,
                label,
            ) by {
                assert(is_placed(a, label));
                let (c, j) = choose|c: int, j: int| #[trigger] holds_at(a, c, j, label);
                assert(holds_at(part, c, j, label));
            }
            assert forall|c: int, j: int, d: int, m: int, label: usize|
                #[trigger] holds_at(part, c, j, label) && #[trigger] holds_at(
                    part,
                    d,
                    m,
                    label,
                ) implies c == d && j == m by {
                assert(holds_at(a, c, j, label) && holds_at(a, d, m, label));
            }
            assert forall|c: int| 0 <= c < part.len() implies (#[trigger] part[c]).len() >= 1
                && is_ascending(part[c]) by {
                assert(part[c] == a[c]);
            }
            assert forall|c: int, d: int| 0 <= c < d < part.len() implies (#[trigger] part[c])[0]
                < (#[trigger] part[d])[0] by {
                assert(part[c] == a[c] && part[d] == a[d]);
            }
        }
        (part, part.len() as int)
    } else {
        let part = a.update(x, a[x].drop_last());
        assert(part[x].push(new) =~= a[x]);
        assert(joined(part, x, new) =~= a);
        assert(is_listed_form(part, (k - 1) as nat)) by {
            assert forall|c: int, j: int, label: usize| #[trigger]
                holds_at(part, c, j, label) implies label < k - 1 by {
                assert(holds_at(a, c, j, label));
            }
            assert forall|label: usize| label < k - 1 implies #[trigger] is_placed(
                part,
                label,
            ) by {
                assert(is_placed(a, label));
                let (c, j) = choose|c: int, j: int| #[trigger] holds_at(a, c, j, label);
                assert(holds_at(part, c, j, label));
            }
            assert forall|c: int, j: int, d: int, m: int, label: usize|
                #[trigger] holds_at(part, c, j, label) && #[trigger] holds_at(
                    part,
                    d,
                    m,
                    label,
                ) implies c == d && j == m by {
                assert(holds_at(a, c, j, label) && holds_at(a, d, m, label));
            }
            assert forall|c: int| 0 <= c < part.len() implies (#[trigger] part[c]).len() >= 1
                && is_ascending(part[c]) by {
                assert(is_ascending(a[c]));
                if c == x {
                    assert forall|p: int, q: int| 0 <= p < q < part[c].len() implies part[c][p]
                        < part[c][q] by {
                        assert(part[c][p] == a[c][p] && part[c][q] == a[c][q]);
                    }
                }
            }
            assert forall|c: int, d: int| 0 <= c < d < part.len() implies (#[trigger] part[c])[0]
                < (#[trigger] part[d])[0] by {
                assert(a[c][0] < a[d][0]);
                assert(part[c][0] == a[c][0]);
                assert(part[d][0] == a[d][0]);
            }
        }
        (part, x)
    }
}

/// `adjacent_assignments(k)` holds every way to group the labels `0 .. k`: each
/// grouping, written in listed form, is an entry.
pub proof fn lemma_assignments_are_complete(k: nat, a: Seq<Seq<usize>>)
    requires
        1 <= k <= usize::MAX,
        is_listed_form(a, k),
    ensures
        adjacent_assignments(k).contains(a),
    decreases k,
{
    if k == 1 {
        let only = seq![seq![0usize]];
        assert(adjacent_assignments(1) =~= seq![only]);
        assert(is_placed(a, 0usize));
        let (x, i) = choose|x: int, i: int| #[trigger] holds_at(a, x, i, 0usize);
        assert(a.len() == 1 && a[0].len() == 1) by {
            if a.len() > 1 {
                assert(a[0].len() >= 1 && a[1].len() >= 1);
                assert(holds_at(a, 0, 0, a[0][0]));
                assert(holds_at(a, 1, 0, a[1][0]));
                assert(holds_at(a, 0, 0, 0usize) && holds_at(a, 1, 0, 0usize));
            }
            assert(a.len() >= 1) by {
                assert(x < a.len());
            }
            if a[0].len() > 1 {
                assert(holds_at(a, 0, 0, a[0][0]));
                assert(holds_at(a, 0, 1, a[0][1]));
                assert(holds_at(a, 0, 0, 0usize) && holds_at(a, 0, 1, 0usize));
            }
            assert(a[0].len() >= 1);
        }
        assert(holds_at(a, 0, 0, a[0][0]));
        assert(a[0] =~= seq![0usize]);
        assert(a =~= only);
        assert(adjacent_assignments(1)[0] == a);
    } else {
        let (part, c) = lemma_listed_form_extends(a, k);
        lemma_assignments_are_complete((k - 1) as nat, part);
        let parts = adjacent_assignments((k - 1) as nat);
        let j = choose|j: int| 0 <= j < parts.len() && parts[j] == part;
        let raw = all_extensions(parts, (k - 1) as usize);
        lemma_all_extensions_members(parts, (k - 1) as usize);
        assert(a == extensions(parts[j], (k - 1) as usize)[c]);
        assert(raw.contains(a));
        let sorted = crate::sorting::stable_sort(raw, coarser_first());
        crate::sorting::lemma_stable_sort_contains(raw, coarser_first());
        crate::sorting::lemma_without_repeats_members(sorted);
        assert(sorted.contains(a));
    }
}

/// Two calls of `compute_adjacent_assignments` with one number give the same list.
pub proof fn lemma_compute_adjacent_assignments_is_a_function(
    length: usize,
    first: Vec<Vec<Vec<usize>>>,
    second: Vec<Vec<Vec<usize>>>,
)
    requires
        call_ensures(compute_adjacent_assignments, (length,), first),
        call_ensures(compute_adjacent_assignments, (length,), second),
    ensures
        first.deep_view() == second.deep_view(),
{
}

} // verus!
