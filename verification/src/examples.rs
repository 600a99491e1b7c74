use vstd::prelude::*;

verus! {

/// The partitions of four cards.
pub proof fn lemma_partitions_of_four()
    ensures
        crate::partitions::tuple_partitions(4) == seq![
            seq![4usize],
            seq![3usize, 1usize],
            seq![2usize, 2usize],
            seq![2usize, 1usize, 1usize],
            seq![1usize, 1usize, 1usize, 1usize],
        ],
{
    reveal_with_fuel(crate::partitions::partitions_capped, 10);
    let a = crate::partitions::tuple_partitions(4);
    let b = seq![
        seq![4usize],
        seq![3usize, 1usize],
        seq![2usize, 2usize],
        seq![2usize, 1usize, 1usize],
        seq![1usize, 1usize, 1usize, 1usize],
    ];
    assert(a =~~= b);
}

/// Six cards have eleven partitions.
pub proof fn lemma_partitions_of_six_are_eleven()
    ensures
        crate::partitions::tuple_partitions(6).len() == 11,
{
    reveal_with_fuel(crate::partitions::partitions_capped, 14);
}

/// The clusterings of two and of three positions.
pub proof fn lemma_assignments_of_two_and_three()
    ensures
        crate::adjacency::adjacent_assignments(2) == seq![
            seq![seq![0usize, 1usize]],
            seq![seq![0usize], seq![1usize]],
        ],
        crate::adjacency::adjacent_assignments(3) == seq![
            seq![seq![0usize, 1usize, 2usize]],
            seq![seq![0usize, 1usize], seq![2usize]],
            seq![seq![0usize, 2usize], seq![1usize]],
            seq![seq![0usize], seq![1usize, 2usize]],
            seq![seq![0usize], seq![1usize], seq![2usize]],
        ],
{
    reveal_with_fuel(crate::adjacency::largest_cluster, 4);
    reveal_with_fuel(crate::adjacency::all_extensions, 3);
    let order = crate::adjacency::coarser_first();
    // two positions
    let one = seq![seq![seq![0usize]]];
    assert(crate::adjacency::adjacent_assignments(1) =~= one);
    let t0 = seq![seq![0usize, 1usize]];
    let t1 = seq![seq![0usize], seq![1usize]];
    let two = seq![t0, t1];
    let raw2 = crate::adjacency::all_extensions(one, 1usize);
    assert(raw2 =~~= two);
    assert(crate::sorting::in_order(raw2, order));
    crate::sorting::lemma_stable_sort_of_ordered(raw2, order);
    assert(t0 != t1) by {
        assert(t0.len() != t1.len());
    }
    crate::sorting::lemma_without_repeats_of_distinct(raw2);
    assert(crate::adjacency::adjacent_assignments(2) == two);
    // three positions
    let a = seq![seq![0usize, 1usize, 2usize]];
    let b = seq![seq![0usize, 1usize], seq![2usize]];
    let c = seq![seq![0usize, 2usize], seq![1usize]];
    let d = seq![seq![0usize], seq![1usize, 2usize]];
    let e = seq![seq![0usize], seq![1usize], seq![2usize]];
    let three = seq![a, b, c, d, e];
    let raw3 = crate::adjacency::all_extensions(two, 2usize);
    assert(raw3 =~~= three);
    assert(crate::sorting::in_order(raw3, order));
    crate::sorting::lemma_stable_sort_of_ordered(raw3, order);
    assert(a.len() != b.len());
    assert(b[0] != c[0]) by {
        assert(b[0][1] != c[0][1]);
    }
    assert(c[0] != d[0]) by {
        assert(c[0].len() != d[0].len());
    }
    assert(d.len() != e.len());
    crate::sorting::lemma_without_repeats_of_distinct(raw3);
}

/// Four positions have fifteen clusterings.
pub proof fn lemma_assignments_of_four_are_fifteen()
    ensures
        crate::adjacency::adjacent_assignments(4).len() == 15,
{
    reveal_with_fuel(crate::counting::stirling, 6);
    reveal_with_fuel(crate::counting::stirling_sum, 6);
    crate::counting::lemma_assignments_count(4);
}

/// The shapes of one card and of two.
pub proof fn lemma_full_decompositions_of_one_and_two()
    ensures
        crate::decomposition::full_decompositions(1) == seq![seq![seq![1usize]]],
        crate::decomposition::full_decompositions(2) == seq![
            seq![seq![2usize]],
            seq![seq![1usize], seq![1usize]],
        ],
{
    reveal_with_fuel(crate::partitions::partitions_capped, 6);
    reveal_with_fuel(crate::decomposition::first_single, 4);
    reveal_with_fuel(crate::decomposition::decompositions_of_all, 4);
    let form = crate::runs::canonical_form();
    // one card
    let p1 = crate::partitions::tuple_partitions(1);
    let one = seq![1usize];
    assert(p1 =~~= seq![one]);
    let s1 = seq![one];
    assert(crate::decomposition::each_alone(one) =~~= s1);
    assert(crate::decomposition::decompositions_of(one) =~= seq![s1]);
    let found1 = crate::decomposition::decompositions_of_all(p1);
    assert(found1 =~= seq![s1]);
    crate::decomposition::lemma_distinct_of_one(s1);
    // two cards
    let p2 = crate::partitions::tuple_partitions(2);
    let pair = seq![2usize];
    let ones = seq![1usize, 1usize];
    assert(p2 =~~= seq![pair, ones]);
    let whole = seq![pair];
    let apart = seq![one, one];
    crate::decomposition::lemma_full_decompositions_first(2);
    assert(crate::decomposition::first_single(pair) == 1);
    assert(pair.take(1) =~= pair);
    assert(pair.skip(1) =~= Seq::<usize>::empty());
    crate::decomposition::lemma_sequential_runs_of_one(2usize);
    assert(crate::decomposition::each_alone(Seq::<usize>::empty()) =~= Seq::<Seq<usize>>::empty());
    assert(whole + Seq::<Seq<usize>>::empty() =~= whole);
    crate::decomposition::lemma_canonical_of_one(pair);
    assert(crate::decomposition::decompositions_of(pair) =~= seq![whole]);
    assert(crate::decomposition::first_single(ones) == 0);
    assert(crate::decomposition::each_alone(ones) =~~= apart);
    assert(crate::decomposition::decompositions_of(ones) =~= seq![apart]);
    let found2 = crate::decomposition::decompositions_of_all(p2);
    assert(found2 =~= seq![whole, apart]);
    // neither reorders the other
    crate::sorting::lemma_first_of_each(found2, form);
    crate::sorting::lemma_stable_sort_rearranges(whole, crate::sizes::descending());
    crate::sorting::lemma_stable_sort_rearranges(apart, crate::sizes::descending());
    assert(form(whole).len() != form(apart).len());
    assert(found2.drop_last() =~= seq![whole]);
    crate::decomposition::lemma_distinct_of_one(whole);
    assert(!crate::sorting::has_key(found2.drop_last(), form, form(found2.last()))) by {
        if crate::sorting::has_key(found2.drop_last(), form, form(found2.last())) {
            let j = choose|j: int| 0 <= j < found2.drop_last().len() && #[trigger] form(found2.drop_last()[j]) == form(found2.last());
            assert(found2.drop_last()[j] == whole);
        }
    }
    assert(crate::runs::distinct(found2) =~= seq![whole, apart]);
}

/// A pair is followed by two singles, whether new adjacency is allowed or not.
pub proof fn lemma_pair_is_followed_by_two_singles(allow: bool)
    ensures
        crate::refinement::subsequent_decompositions(seq![seq![2usize]], allow) == seq![
            seq![seq![1usize], seq![1usize]],
        ],
{
    lemma_full_decompositions_of_one_and_two();
    reveal_with_fuel(crate::sizes::run_total, 3);
    reveal_with_fuel(crate::refinement::given_out, 3);
    let pair = seq![2usize];
    let apart = seq![seq![1usize], seq![1usize]];
    crate::refinement::lemma_canonical_run_of_one(2usize);
    crate::refinement::lemma_one_run_is_followed_by_its_refinements(pair, allow);
    let full = crate::decomposition::full_decompositions(2);
    assert(crate::sizes::run_total(pair) == 2);
    assert(full[0] == seq![pair]);
    assert(full.drop_first() =~= seq![apart]);
    let queue = crate::refinement::refinements(pair);
    assert(queue == seq![apart]);
    assert(queue.drop_first() =~= Seq::<Seq<Seq<usize>>>::empty());
    crate::sizes::lemma_lex_less_irreflexive(seq![1usize]);
    crate::runs::lemma_canonical_of_ordered(apart);
    assert(crate::refinement::may_stand(apart, allow));
    assert(crate::refinement::given_out(queue, allow) =~= seq![apart]);
}

/// The shapes of four cards.
pub proof fn lemma_full_decompositions_of_four()
    ensures
        crate::decomposition::full_decompositions(4) == seq![
            seq![seq![4usize]],
            seq![seq![3usize], seq![1usize]],
            seq![seq![2usize, 2usize]],
            seq![seq![2usize], seq![2usize]],
            seq![seq![2usize], seq![1usize], seq![1usize]],
            seq![seq![1usize], seq![1usize], seq![1usize], seq![1usize]],
        ],
{
    lemma_partitions_of_four();
    lemma_assignments_of_two_and_three();
    reveal_with_fuel(crate::decomposition::first_single, 6);
    reveal_with_fuel(crate::decomposition::decompositions_of_all, 6);
    reveal_with_fuel(crate::runs::arrangements_of_all, 3);
    let form = crate::runs::canonical_form();
    let s4 = seq![seq![4usize]];
    let s31 = seq![seq![3usize], seq![1usize]];
    let s22 = seq![seq![2usize, 2usize]];
    let s2_2 = seq![seq![2usize], seq![2usize]];
    let s211 = seq![seq![2usize], seq![1usize], seq![1usize]];
    let s1111 = seq![seq![1usize], seq![1usize], seq![1usize], seq![1usize]];
    // each is in canonical form
    assert(crate::sizes::lex_less_at(seq![1usize], seq![3usize], 0));
    assert(crate::sizes::lex_less_at(seq![1usize], seq![2usize], 0));
    crate::sizes::lemma_lex_less_asymmetric(seq![1usize], seq![3usize]);
    crate::sizes::lemma_lex_less_asymmetric(seq![1usize], seq![2usize]);
    crate::sizes::lemma_lex_less_irreflexive(seq![1usize]);
    crate::sizes::lemma_lex_less_irreflexive(seq![2usize]);
    crate::runs::lemma_canonical_of_ordered(s4);
    crate::runs::lemma_canonical_of_ordered(s31);
    crate::runs::lemma_canonical_of_ordered(s22);
    crate::runs::lemma_canonical_of_ordered(s2_2);
    crate::runs::lemma_canonical_of_ordered(s211);
    crate::runs::lemma_canonical_of_ordered(s1111);
    let none = Seq::<usize>::empty();
    assert(crate::decomposition::each_alone(none) =~= Seq::<Seq<usize>>::empty());
    // [4]
    let p4 = seq![4usize];
    crate::decomposition::lemma_sequential_runs_of_one(4usize);
    assert(p4.take(1) =~= p4 && p4.skip(1) =~= none);
    assert(s4 + Seq::<Seq<usize>>::empty() =~= s4);
    assert(crate::decomposition::decompositions_of(p4) =~= seq![s4]);
    // [3, 1]
    let p31 = seq![3usize, 1usize];
    crate::decomposition::lemma_sequential_runs_of_one(3usize);
    assert(p31.take(1) =~= seq![3usize] && p31.skip(1) =~= seq![1usize]);
    assert(crate::decomposition::each_alone(seq![1usize]) =~~= seq![seq![1usize]]);
    assert(seq![seq![3usize]] + seq![seq![1usize]] =~= s31);
    assert(crate::decomposition::decompositions_of(p31) =~= seq![s31]);
    // [2, 2]
    let p22 = seq![2usize, 2usize];
    assert(p22.take(2) =~= p22 && p22.skip(2) =~= none);
    let together = crate::runs::clustered(p22, seq![seq![0usize, 1usize]]);
    let apart = crate::runs::clustered(p22, seq![seq![0usize], seq![1usize]]);
    assert(together =~~= s22);
    assert(apart =~~= s2_2);
    assert(crate::runs::all_uniform(s22));
    assert(crate::runs::all_uniform(s2_2));
    let arranged = crate::runs::arrangements_of_all(p22, crate::adjacency::adjacent_assignments(2));
    assert(arranged =~= seq![s22, s2_2]);
    assert(form(s22) != form(s2_2)) by {
        assert(s22.len() != s2_2.len());
    }
    crate::sorting::lemma_first_of_each_of_distinct(arranged, form);
    assert(crate::runs::sequential_runs(p22) == seq![s22, s2_2]);
    assert(s22 + Seq::<Seq<usize>>::empty() =~= s22);
    assert(s2_2 + Seq::<Seq<usize>>::empty() =~= s2_2);
    assert(crate::decomposition::decompositions_of(p22) =~= seq![s22, s2_2]);
    // [2, 1, 1]
    let p211 = seq![2usize, 1usize, 1usize];
    crate::decomposition::lemma_sequential_runs_of_one(2usize);
    assert(p211.take(1) =~= seq![2usize] && p211.skip(1) =~= seq![1usize, 1usize]);
    assert(crate::decomposition::each_alone(seq![1usize, 1usize]) =~~= seq![
        seq![1usize],
        seq![1usize],
    ]);
    assert(seq![seq![2usize]] + seq![seq![1usize], seq![1usize]] =~= s211);
    assert(crate::decomposition::decompositions_of(p211) =~= seq![s211]);
    // [1, 1, 1, 1]
    let p1111 = seq![1usize, 1usize, 1usize, 1usize];
    assert(crate::decomposition::each_alone(p1111) =~~= s1111);
    assert(crate::decomposition::decompositions_of(p1111) =~= seq![s1111]);
    // all together
    let found = crate::decomposition::decompositions_of_all(crate::partitions::tuple_partitions(4));
    let all = seq![s4, s31, s22, s2_2, s211, s1111];
    assert(found =~= all);
    assert(s4.len() != s31.len() && s4.len() != s2_2.len() && s4.len() != s211.len() && s4.len() != s1111.len());
    assert(s4[0] != s22[0]) by {
        assert(s4[0][0] != s22[0][0]);
    }
    assert(s31[0] != s2_2[0]) by {
        assert(s31[0][0] != s2_2[0][0]);
    }
    assert(s31[0] != s22[0]) by {
        assert(s31[0][0] != s22[0][0]);
    }
    assert(s22.len() != s2_2.len());
    crate::sorting::lemma_first_of_each_of_distinct(found, form);
}

/// What stands behind four of a kind among the shapes of four cards.
pub proof fn lemma_refinements_of_four()
    ensures
        crate::refinement::refinements(seq![4usize]) == seq![
            seq![seq![3usize], seq![1usize]],
            seq![seq![2usize, 2usize]],
            seq![seq![2usize], seq![2usize]],
            seq![seq![2usize], seq![1usize], seq![1usize]],
            seq![seq![1usize], seq![1usize], seq![1usize], seq![1usize]],
        ],
{
    lemma_full_decompositions_of_four();
    reveal_with_fuel(crate::sizes::run_total, 3);
    let four = seq![4usize];
    assert(crate::sizes::run_total(four) == 4);
    let full = crate::decomposition::full_decompositions(4);
    let queue = seq![
        seq![seq![3usize], seq![1usize]],
        seq![seq![2usize, 2usize]],
        seq![seq![2usize], seq![2usize]],
        seq![seq![2usize], seq![1usize], seq![1usize]],
        seq![seq![1usize], seq![1usize], seq![1usize], seq![1usize]],
    ];
    assert(full[0] == seq![four]);
    assert(full.drop_first() =~= queue);
}

/// Which refinements of four of a kind may stand, and that they are in canonical form.
proof fn lemma_given_out_of_four()
    ensures
        crate::refinement::given_out(crate::refinement::refinements(seq![4usize]), false) == seq![
            seq![seq![3usize], seq![1usize]],
            seq![seq![2usize], seq![2usize]],
            seq![seq![2usize], seq![1usize], seq![1usize]],
            seq![seq![1usize], seq![1usize], seq![1usize], seq![1usize]],
        ],
        crate::refinement::given_out(crate::refinement::refinements(seq![4usize]), true)
            == crate::refinement::refinements(seq![4usize]),
{
    lemma_refinements_of_four();
    let s31 = seq![seq![3usize], seq![1usize]];
    let s22 = seq![seq![2usize, 2usize]];
    let s2_2 = seq![seq![2usize], seq![2usize]];
    let s211 = seq![seq![2usize], seq![1usize], seq![1usize]];
    let s1111 = seq![seq![1usize], seq![1usize], seq![1usize], seq![1usize]];
    let queue = seq![s31, s22, s2_2, s211, s1111];
    assert(crate::sizes::lex_less_at(seq![1usize], seq![3usize], 0));
    assert(crate::sizes::lex_less_at(seq![1usize], seq![2usize], 0));
    crate::sizes::lemma_lex_less_asymmetric(seq![1usize], seq![3usize]);
    crate::sizes::lemma_lex_less_asymmetric(seq![1usize], seq![2usize]);
    crate::sizes::lemma_lex_less_irreflexive(seq![1usize]);
    crate::sizes::lemma_lex_less_irreflexive(seq![2usize]);
    crate::runs::lemma_canonical_of_ordered(s31);
    crate::runs::lemma_canonical_of_ordered(s22);
    crate::runs::lemma_canonical_of_ordered(s2_2);
    crate::runs::lemma_canonical_of_ordered(s211);
    crate::runs::lemma_canonical_of_ordered(s1111);
    assert(!crate::refinement::may_stand(s22, false)) by {
        assert(s22[0].len() == 2);
    }
    let q1 = queue.drop_first();
    let q2 = q1.drop_first();
    let q3 = q2.drop_first();
    let q4 = q3.drop_first();
    let q5 = q4.drop_first();
    assert(q1 =~= seq![s22, s2_2, s211, s1111]);
    assert(q2 =~= seq![s2_2, s211, s1111]);
    assert(q3 =~= seq![s211, s1111]);
    assert(q4 =~= seq![s1111]);
    assert(q5 =~= Seq::<Seq<Seq<usize>>>::empty());
    assert(crate::refinement::given_out(q5, false) =~= Seq::<Seq<Seq<usize>>>::empty());
    assert(crate::refinement::given_out(q5, true) =~= Seq::<Seq<Seq<usize>>>::empty());
    assert(crate::refinement::given_out(q4, false) =~= seq![s1111]);
    assert(crate::refinement::given_out(q4, true) =~= seq![s1111]);
    assert(crate::refinement::given_out(q3, false) =~= seq![s211, s1111]);
    assert(crate::refinement::given_out(q3, true) =~= seq![s211, s1111]);
    assert(crate::refinement::given_out(q2, false) =~= seq![s2_2, s211, s1111]);
    assert(crate::refinement::given_out(q2, true) =~= seq![s2_2, s211, s1111]);
    assert(crate::refinement::given_out(q1, false) =~= seq![s2_2, s211, s1111]);
    assert(crate::refinement::given_out(q1, true) =~= seq![s22, s2_2, s211, s1111]);
    assert(crate::refinement::given_out(queue, false) =~= seq![s31, s2_2, s211, s1111]);
    assert(crate::refinement::given_out(queue, true) =~= queue);
}

/// Four of a kind is followed by a triple and a single, then by two pairs, side by side
/// only if new adjacency is allowed and then apart, then by a pair and two singles, and
/// last by four singles.
pub proof fn lemma_four_of_a_kind_followers()
    ensures
        crate::refinement::subsequent_decompositions(seq![seq![4usize]], false) == seq![
            seq![seq![3usize], seq![1usize]],
            seq![seq![2usize], seq![2usize]],
            seq![seq![2usize], seq![1usize], seq![1usize]],
            seq![seq![1usize], seq![1usize], seq![1usize], seq![1usize]],
        ],
        crate::refinement::subsequent_decompositions(seq![seq![4usize]], true) == seq![
            seq![seq![3usize], seq![1usize]],
            seq![seq![2usize, 2usize]],
            seq![seq![2usize], seq![2usize]],
            seq![seq![2usize], seq![1usize], seq![1usize]],
            seq![seq![1usize], seq![1usize], seq![1usize], seq![1usize]],
        ],
{
    let four = seq![4usize];
    crate::refinement::lemma_canonical_run_of_one(4usize);
    crate::refinement::lemma_one_run_is_followed_by_its_refinements(four, false);
    crate::refinement::lemma_one_run_is_followed_by_its_refinements(four, true);
    lemma_given_out_of_four();
    lemma_refinements_of_four();
}

} // verus!
