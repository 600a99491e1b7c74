use vstd::prelude::*;

verus! {

/// The number of ways to group `n` labels into exactly `j` clusters: the Stirling numbers
/// of the second kind. The last label either joins one of `j` clusters of the others or
/// is a cluster of its own beside `j - 1`.
pub open spec fn stirling(n: nat, j: nat) -> nat
    decreases n,
{
    if n == 0 {
        if j == 0 {
            1
        } else {
            0
        }
    } else if j == 0 {
        0
    } else {
        j * stirling((n - 1) as nat, j) + stirling((n - 1) as nat, (j - 1) as nat)
    }
}

/// The number of ways to group `n` labels into at most `upto` clusters.
pub open spec fn stirling_sum(n: nat, upto: nat) -> nat
    decreases upto,
{
    if upto == 0 {
        stirling(n, 0)
    } else {
        stirling_sum(n, (upto - 1) as nat) + stirling(n, upto)
    }
}

/// The number of ways to group `n` labels into clusters: the Bell numbers.
pub open spec fn bell(n: nat) -> nat {
    stirling_sum(n, n)
}

/// How many clusterings of `list` have exactly `j` clusters.
pub open spec fn with_clusters(list: Seq<Seq<Seq<usize>>>, j: nat) -> nat
    decreases list.len(),
{
    if list.len() == 0 {
        0
    } else if list.last().len() == j {
        with_clusters(list.drop_last(), j) + 1
    } else {
        with_clusters(list.drop_last(), j)
    }
}

/// How many clusterings of `list` have at most `upto` clusters.
pub open spec fn with_clusters_up_to(list: Seq<Seq<Seq<usize>>>, upto: nat) -> nat
    decreases upto,
{
    if upto == 0 {
        with_clusters(list, 0)
    } else {
        with_clusters_up_to(list, (upto - 1) as nat) + with_clusters(list, upto)
    }
}

/// Counting the clusterings with `j` clusters adds up over lists put together.
proof fn lemma_with_clusters_concat(a: Seq<Seq<Seq<usize>>>, b: Seq<Seq<Seq<usize>>>, j: nat)
    ensures
        with_clusters(a + b, j) == with_clusters(a, j) + with_clusters(b, j),
    decreases b.len(),
{
    if b.len() == 0 {
        assert(a + b =~= a);
    } else {
        lemma_with_clusters_concat(a, b.drop_last(), j);
        assert((a + b).drop_last() =~= a + b.drop_last());
        assert((a + b).last() == b.last());
    }
}

/// A clustering put into a list is counted if it has `j` clusters.
proof fn lemma_with_clusters_insert(
    list: Seq<Seq<Seq<usize>>>,
    at: int,
    entry: Seq<Seq<usize>>,
    j: nat,
)
    requires
        0 <= at <= list.len(),
    ensures
        with_clusters(list.insert(at, entry), j) == with_clusters(list, j) + if entry.len() == j {
            1nat
        } else {
            0nat
        },
    decreases list.len(),
{
    let now = list.insert(at, entry);
    if at == list.len() {
        assert(now.drop_last() =~= list);
        assert(now.last() == entry);
    } else {
        lemma_with_clusters_insert(list.drop_last(), at, entry, j);
        assert(now.drop_last() =~= list.drop_last().insert(at, entry));
        assert(now.last() == list.last());
    }
}

/// Sorting keeps the number of clusterings with `j` clusters.
proof fn lemma_with_clusters_sorted(
    list: Seq<Seq<Seq<usize>>>,
    precedes: spec_fn(Seq<Seq<usize>>, Seq<Seq<usize>>) -> bool,
    j: nat,
)
    ensures
        with_clusters(crate::sorting::stable_sort(list, precedes), j) == with_clusters(list, j),
    decreases list.len(),
{
    if list.len() > 0 {
        let sorted = crate::sorting::stable_sort(list.drop_last(), precedes);
        lemma_with_clusters_sorted(list.drop_last(), precedes, j);
        crate::sorting::lemma_insert_behind_slot(sorted, list.last(), precedes);
        lemma_with_clusters_insert(
            sorted,
            crate::sorting::slot_of(sorted, list.last(), precedes),
            list.last(),
            j,
        );
    }
}

/// Of the first `m` extensions of `part`, all or none have `j` clusters.
proof fn lemma_with_clusters_joined(part: Seq<Seq<usize>>, label: usize, m: int, j: nat)
    requires
        0 <= m <= part.len(),
    ensures
        with_clusters(crate::adjacency::extensions(part, label).take(m), j) == if part.len()
            == j {
            m as nat
        } else {
            0nat
        },
    decreases m,
{
    let all = crate::adjacency::extensions(part, label);
    if m > 0 {
        lemma_with_clusters_joined(part, label, m - 1, j);
        assert(all.take(m).drop_last() =~= all.take(m - 1));
        assert(all.take(m).last() == crate::adjacency::joined(part, m - 1, label));
    }
}

/// Of the extensions of `part`, as many as `part` has clusters have that number of
/// clusters, and one has one more.
proof fn lemma_with_clusters_extensions(part: Seq<Seq<usize>>, label: usize, j: nat)
    ensures
        with_clusters(crate::adjacency::extensions(part, label), j) == (if part.len() == j {
            j
        } else {
            0nat
        }) + (if part.len() + 1 == j {
            1nat
        } else {
            0nat
        }),
{
    let all = crate::adjacency::extensions(part, label);
    lemma_with_clusters_joined(part, label, part.len() as int, j);
    assert(all.drop_last() =~= all.take(part.len() as int));
    assert(all.last() == crate::adjacency::set_apart(part, label));
}

/// The extensions of a list of clusterings with `j` clusters: `j` for each clustering
/// that has `j` clusters, and one for each that has one less.
proof fn lemma_with_clusters_all_extensions(parts: Seq<Seq<Seq<usize>>>, label: usize, j: nat)
    ensures
        with_clusters(crate::adjacency::all_extensions(parts, label), j) == j * with_clusters(
            parts,
            j,
        ) + if j >= 1 {
            with_clusters(parts, (j - 1) as nat)
        } else {
            0nat
        },
    decreases parts.len(),
{
    if parts.len() > 0 {
        let init = parts.drop_last();
        lemma_with_clusters_all_extensions(init, label, j);
        lemma_with_clusters_extensions(parts.last(), label, j);
        lemma_with_clusters_concat(
            crate::adjacency::all_extensions(init, label),
            crate::adjacency::extensions(parts.last(), label),
            j,
        );
        let a = with_clusters(init, j);
        assert(j * (a + 1) == j * a + j) by (nonlinear_arith);
    } else {
        assert(j * 0 == 0) by (nonlinear_arith);
    }
}

/// The clusterings of a list number as many as those with `0`, `1`, and so on up to `m`
/// clusters together, where none has more than `m`.
proof fn lemma_with_clusters_up_to_all(list: Seq<Seq<Seq<usize>>>, m: nat)
    requires
        forall|i: int| 0 <= i < list.len() ==> (#[trigger] list[i]).len() <= m,
    ensures
        with_clusters_up_to(list, m) == list.len(),
    decreases list.len(),
{
    if list.len() == 0 {
        lemma_with_clusters_up_to_none(m);
        assert(list =~= Seq::<Seq<Seq<usize>>>::empty());
    } else {
        let init = list.drop_last();
        assert forall|i: int| 0 <= i < init.len() implies (#[trigger] init[i]).len() <= m by {
            assert(init[i] == list[i]);
        }
        lemma_with_clusters_up_to_all(init, m);
        assert(list[list.len() - 1].len() <= m);
        lemma_with_clusters_up_to_one_more(list, m);
    }
}

/// An empty list holds no clustering of any number of clusters.
proof fn lemma_with_clusters_up_to_none(m: nat)
    ensures
        with_clusters_up_to(Seq::<Seq<Seq<usize>>>::empty(), m) == 0,
    decreases m,
{
    if m > 0 {
        lemma_with_clusters_up_to_none((m - 1) as nat);
    }
}

/// The last clustering of a list is counted once if it has at most `m` clusters.
proof fn lemma_with_clusters_up_to_one_more(list: Seq<Seq<Seq<usize>>>, m: nat)
    requires
        list.len() > 0,
    ensures
        with_clusters_up_to(list, m) == with_clusters_up_to(list.drop_last(), m) + if list.last().len()
            <= m {
            1nat
        } else {
            0nat
        },
    decreases m,
{
    if m > 0 {
        lemma_with_clusters_up_to_one_more(list, (m - 1) as nat);
    }
}

/// An extension of a clustering tells which clustering it extends, and how.
proof fn lemma_extension_is_injective(
    first: Seq<Seq<usize>>,
    c: int,
    second: Seq<Seq<usize>>,
    d: int,
    k: nat,
)
    requires
        crate::adjacency::is_clustering(first, k),
        crate::adjacency::is_clustering(second, k),
        k <= usize::MAX,
        0 <= c <= first.len(),
        0 <= d <= second.len(),
        crate::adjacency::extensions(first, k as usize)[c] == crate::adjacency::extensions(
            second,
            k as usize,
        )[d],
    ensures
        first == second,
        c == d,
{
    let new = k as usize;
    let e = crate::adjacency::extensions(first, new)[c];
    let f = crate::adjacency::extensions(second, new)[d];
    // the new label stands last in cluster `c` of `e` and last in cluster `d` of `f`
    assert(e[c][e[c].len() - 1] == new);
    assert(f[d][f[d].len() - 1] == new);
    // no cluster of `first` or of `second` holds it
    assert forall|x: int, i: int| 0 <= x < first.len() && 0 <= i < first[x].len() implies first[x][i]
        != new by {
        assert(crate::adjacency::holds_at(first, x, i, first[x][i]));
    }
    assert forall|x: int, i: int|
        0 <= x < second.len() && 0 <= i < second[x].len() implies second[x][i] != new by {
        assert(crate::adjacency::holds_at(second, x, i, second[x][i]));
    }
    if c != d {
        if c < f.len() && c != d {
            // cluster `c` of `f` is a cluster of `second`
            assert(f[c] == second[c]);
            assert(second[c][e[c].len() - 1] == new);
        }
    }
    assert(c == d);
    if c < first.len() {
        assert(e.len() == first.len());
        assert(d < second.len()) by {
            if d == second.len() {
                assert(f[d] =~= seq![new]);
                assert(first[c].len() >= 1);
                assert(e[c].len() == first[c].len() + 1);
            }
        }
        assert forall|x: int| 0 <= x < first.len() implies first[x] == second[x] by {
            if x == c {
                assert(e[c].drop_last() =~= first[c]);
                assert(f[c].drop_last() =~= second[c]);
            } else {
                assert(e[x] == first[x]);
                assert(f[x] == second[x]);
            }
        }
        assert(first =~= second);
    } else {
        assert(d == second.len()) by {
            if d < second.len() {
                assert(e[c] =~= seq![new]);
                assert(second[d].len() >= 1);
                assert(f[d].len() == second[d].len() + 1);
            }
        }
        assert(e.drop_last() =~= first);
        assert(f.drop_last() =~= second);
    }
}

/// The extensions of distinct clusterings are distinct.
proof fn lemma_all_extensions_are_distinct(parts: Seq<Seq<Seq<usize>>>, k: nat)
    requires
        k <= usize::MAX,
        parts.no_duplicates(),
        forall|i: int| 0 <= i < parts.len() ==> crate::adjacency::is_clustering(#[trigger] parts[i], k),
    ensures
        crate::adjacency::all_extensions(parts, k as usize).no_duplicates(),
    decreases parts.len(),
{
    let new = k as usize;
    if parts.len() > 0 {
        let init = parts.drop_last();
        assert forall|i: int| 0 <= i < init.len() implies crate::adjacency::is_clustering(
            #[trigger] init[i],
            k,
        ) by {
            assert(init[i] == parts[i]);
        }
        assert(init.no_duplicates()) by {
            assert forall|i: int, j: int|
                0 <= i < init.len() && 0 <= j < init.len() && i != j implies init[i] != init[j] by {
                assert(init[i] == parts[i] && init[j] == parts[j]);
            }
        }
        lemma_all_extensions_are_distinct(init, k);
        let a = crate::adjacency::all_extensions(init, new);
        let b = crate::adjacency::extensions(parts.last(), new);
        assert(b.no_duplicates()) by {
            assert forall|i: int, j: int|
                0 <= i < b.len() && 0 <= j < b.len() && i != j implies b[i] != b[j] by {
                if b[i] == b[j] {
                    lemma_extension_is_injective(parts.last(), i, parts.last(), j, k);
                }
            }
        }
        crate::adjacency::lemma_all_extensions_members(init, new);
        assert forall|i: int, j: int| 0 <= i < a.len() && 0 <= j < b.len() implies a[i]
            != b[j] by {
            if a[i] == b[j] {
                assert(a.contains(a[i]));
                let (x, c) = choose|x: int, c: int|
                    0 <= x < init.len() && 0 <= c <= init[x].len() && a[i]
                        == #[trigger] crate::adjacency::extensions(init[x], new)[c];
                assert(init[x] == parts[x]);
                lemma_extension_is_injective(parts[x], c, parts.last(), j, k);
                assert(parts[x] == parts[parts.len() - 1]);
            }
        }
        vstd::seq_lib::lemma_no_dup_in_concat(a, b);
    }
}

/// Sorting keeps a list without duplicates free of them.
proof fn lemma_sorted_is_distinct(
    list: Seq<Seq<Seq<usize>>>,
    precedes: spec_fn(Seq<Seq<usize>>, Seq<Seq<usize>>) -> bool,
)
    requires
        list.no_duplicates(),
    ensures
        crate::sorting::stable_sort(list, precedes).no_duplicates(),
    decreases list.len(),
{
    if list.len() > 0 {
        let init = list.drop_last();
        let sorted = crate::sorting::stable_sort(init, precedes);
        assert(init.no_duplicates()) by {
            assert forall|i: int, j: int|
                0 <= i < init.len() && 0 <= j < init.len() && i != j implies init[i] != init[j] by {
                assert(init[i] == list[i] && init[j] == list[j]);
            }
        }
        lemma_sorted_is_distinct(init, precedes);
        crate::sorting::lemma_stable_sort_contains(init, precedes);
        crate::sorting::lemma_insert_behind_slot(sorted, list.last(), precedes);
        let at = crate::sorting::slot_of(sorted, list.last(), precedes);
        let now = sorted.insert(at, list.last());
        assert(!sorted.contains(list.last())) by {
            if sorted.contains(list.last()) {
                assert(init.contains(list.last()));
                let i = choose|i: int| 0 <= i < init.len() && init[i] == list.last();
                assert(list[i] == list[list.len() - 1]);
            }
        }
        assert forall|i: int, j: int|
            0 <= i < now.len() && 0 <= j < now.len() && i != j implies now[i] != now[j] by {
            let x = if i < at { i } else { i - 1 };
            let y = if j < at { j } else { j - 1 };
            if i == at {
                assert(now[j] == sorted[y]);
                assert(sorted.contains(sorted[y]));
            } else if j == at {
                assert(now[i] == sorted[x]);
                assert(sorted.contains(sorted[x]));
            } else {
                assert(now[i] == sorted[x] && now[j] == sorted[y]);
            }
        }
    }
}

/// What `adjacent_assignments(k)` lists, it lists once; and above one label the list is
/// the sorted list of the extensions, from which nothing had to be dropped.
pub proof fn lemma_assignments_are_distinct(k: nat)
    requires
        1 <= k <= usize::MAX,
    ensures
        crate::adjacency::adjacent_assignments(k).no_duplicates(),
        k >= 2 ==> crate::adjacency::adjacent_assignments(k) == crate::sorting::stable_sort(
            crate::adjacency::all_extensions(
                crate::adjacency::adjacent_assignments((k - 1) as nat),
                (k - 1) as usize,
            ),
            crate::adjacency::coarser_first(),
        ),
    decreases k,
{
    if k == 1 {
        assert(crate::adjacency::adjacent_assignments(1) =~= seq![seq![seq![0usize]]]);
    } else {
        let parts = crate::adjacency::adjacent_assignments((k - 1) as nat);
        lemma_assignments_are_distinct((k - 1) as nat);
        crate::adjacency::lemma_assignments_are_clusterings((k - 1) as nat);
        lemma_all_extensions_are_distinct(parts, (k - 1) as nat);
        let raw = crate::adjacency::all_extensions(parts, (k - 1) as usize);
        lemma_sorted_is_distinct(raw, crate::adjacency::coarser_first());
        let sorted = crate::sorting::stable_sort(raw, crate::adjacency::coarser_first());
        crate::sorting::lemma_without_repeats_of_distinct(sorted);
    }
}

/// No clustering of `adjacent_assignments(k)` has more than `k` clusters.
proof fn lemma_assignments_cluster_bound(k: nat, i: int)
    requires
        1 <= k <= usize::MAX,
        0 <= i < crate::adjacency::adjacent_assignments(k).len(),
    ensures
        crate::adjacency::adjacent_assignments(k)[i].len() <= k,
    decreases k,
{
    let a = crate::adjacency::adjacent_assignments(k)[i];
    if k == 1 {
        assert(crate::adjacency::adjacent_assignments(1) =~= seq![seq![seq![0usize]]]);
    } else {
        let parts = crate::adjacency::adjacent_assignments((k - 1) as nat);
        assert(crate::adjacency::adjacent_assignments(k).contains(a));
        crate::adjacency::lemma_assignment_extends(k, a);
        let (x, c) = choose|x: int, c: int|
            0 <= x < parts.len() && 0 <= c <= parts[x].len() && a
                == #[trigger] crate::adjacency::extensions(parts[x], (k - 1) as usize)[c];
        lemma_assignments_cluster_bound((k - 1) as nat, x);
    }
}

/// `adjacent_assignments(k)` lists as many clusterings with `j` clusters as there are
/// ways to group `k` labels into `j` clusters.
pub proof fn lemma_assignments_by_clusters(k: nat, j: nat)
    requires
        1 <= k <= usize::MAX,
    ensures
        with_clusters(crate::adjacency::adjacent_assignments(k), j) == stirling(k, j),
    decreases k,
{
    if k == 1 {
        let list = crate::adjacency::adjacent_assignments(1);
        assert(list =~= seq![seq![seq![0usize]]]);
        assert(list.drop_last() =~= Seq::<Seq<Seq<usize>>>::empty());
        assert(with_clusters(list.drop_last(), j) == 0);
        assert(list.last().len() == 1);
        if j >= 1 {
            assert(stirling(0, j) == 0);
            assert(j * stirling(0, j) == 0) by (nonlinear_arith)
                requires
                    stirling(0, j) == 0,
            ;
            assert(stirling(0, (j - 1) as nat) == if j == 1 {
                1nat
            } else {
                0nat
            });
            assert(stirling(1, j) == if j == 1 {
                1nat
            } else {
                0nat
            });
        } else {
            assert(stirling(1, 0) == 0);
        }
        assert(with_clusters(list, j) == if j == 1 {
            1nat
        } else {
            0nat
        });
    } else {
        let parts = crate::adjacency::adjacent_assignments((k - 1) as nat);
        lemma_assignments_are_distinct(k);
        let raw = crate::adjacency::all_extensions(parts, (k - 1) as usize);
        lemma_with_clusters_sorted(raw, crate::adjacency::coarser_first(), j);
        lemma_with_clusters_all_extensions(parts, (k - 1) as usize, j);
        lemma_assignments_by_clusters((k - 1) as nat, j);
        let sorted = crate::sorting::stable_sort(raw, crate::adjacency::coarser_first());
        assert(crate::adjacency::adjacent_assignments(k) == sorted);
        assert(with_clusters(sorted, j) == with_clusters(raw, j));
        if j >= 1 {
            lemma_assignments_by_clusters((k - 1) as nat, (j - 1) as nat);
            assert(with_clusters(raw, j) == j * with_clusters(parts, j) + with_clusters(
                parts,
                (j - 1) as nat,
            ));
            assert(stirling(k, j) == j * stirling((k - 1) as nat, j) + stirling(
                (k - 1) as nat,
                (j - 1) as nat,
            ));
        } else {
            assert(0 * with_clusters(parts, 0) == 0) by (nonlinear_arith);
            assert(stirling(k, 0) == 0);
        }
    }
}

/// `adjacent_assignments(k)` lists as many clusterings with at most `upto` clusters as
/// there are ways to group `k` labels into at most `upto` clusters.
proof fn lemma_assignments_up_to(k: nat, upto: nat)
    requires
        1 <= k <= usize::MAX,
    ensures
        with_clusters_up_to(crate::adjacency::adjacent_assignments(k), upto) == stirling_sum(
            k,
            upto,
        ),
    decreases upto,
{
    lemma_assignments_by_clusters(k, upto);
    if upto > 0 {
        lemma_assignments_up_to(k, (upto - 1) as nat);
    }
}

/// `adjacent_assignments(k)` lists as many clusterings as there are ways to group `k`
/// labels: the Bell number of `k`.
pub proof fn lemma_assignments_count(k: nat)
    requires
        1 <= k <= usize::MAX,
    ensures
        crate::adjacency::adjacent_assignments(k).len() == bell(k),
{
    let list = crate::adjacency::adjacent_assignments(k);
    assert forall|i: int| 0 <= i < list.len() implies (#[trigger] list[i]).len() <= k by {
        lemma_assignments_cluster_bound(k, i);
    }
    lemma_with_clusters_up_to_all(list, k);
    lemma_assignments_up_to(k, k);
}

} // verus!
