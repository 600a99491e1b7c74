use shengji_mechanics::adjacency::{coarser_precedes, compute_adjacent_assignments};
use shengji_mechanics::decomposition::full_decomposition_ordering;
use shengji_mechanics::partitions::find_tuple_partitions;
use shengji_mechanics::runs::{
    arrangements_of, canonical_runs, combine_permutations, group_into_sequential_tuples,
    sort_runs,
};

fn shape_total(shape: &Vec<Vec<usize>>) -> usize {
    shape.iter().map(|run| run.iter().sum::<usize>()).sum()
}

#[test]
fn partitions_are_positive_descending_and_sum_to_n() {
    for n in 1..=12usize {
        let list = find_tuple_partitions(n);
        for p in &list {
            assert_eq!(p.iter().sum::<usize>(), n);
            assert!(p.iter().all(|size| *size >= 1));
            assert!(p.windows(2).all(|w| w[0] >= w[1]));
        }
        for i in 0..list.len() {
            for j in i + 1..list.len() {
                assert_ne!(list[i], list[j]);
                assert!(list[i] > list[j]);
            }
        }
    }
}

#[test]
fn partitions_are_counted_by_the_partition_numbers() {
    let expected = [1usize, 2, 3, 5, 7, 11, 15, 22, 30, 42];
    for n in 1..=10usize {
        assert_eq!(find_tuple_partitions(n).len(), expected[n - 1]);
    }
    assert_eq!(find_tuple_partitions(6).len(), 11);
}

#[test]
fn partitions_of_four() {
    assert_eq!(
        find_tuple_partitions(4),
        vec![vec![4], vec![3, 1], vec![2, 2], vec![2, 1, 1], vec![1, 1, 1, 1]]
    );
}

#[test]
fn assignments_are_counted_by_the_bell_numbers() {
    let expected = [1usize, 2, 5, 15, 52, 203, 877];
    for k in 1..=7usize {
        assert_eq!(compute_adjacent_assignments(k).len(), expected[k - 1]);
    }
    assert_eq!(compute_adjacent_assignments(4).len(), 15);
}

#[test]
fn assignments_hold_each_label_once() {
    for k in 1..=6usize {
        for assignment in compute_adjacent_assignments(k) {
            let mut seen = vec![0usize; k];
            for cluster in &assignment {
                assert!(!cluster.is_empty());
                for label in cluster {
                    assert!(*label < k);
                    seen[*label] += 1;
                }
            }
            assert!(seen.iter().all(|times| *times == 1));
        }
    }
}

#[test]
fn assignments_are_written_in_one_form() {
    for k in 1..=6usize {
        for assignment in compute_adjacent_assignments(k) {
            for cluster in &assignment {
                assert!(cluster.windows(2).all(|w| w[0] < w[1]));
            }
            assert!(assignment.windows(2).all(|w| w[0][0] < w[1][0]));
        }
    }
}

#[test]
fn assignments_hold_every_grouping() {
    let list = compute_adjacent_assignments(4);
    for grouping in [
        vec![vec![0, 3], vec![1, 2]],
        vec![vec![0], vec![1, 3], vec![2]],
        vec![vec![0, 1, 2, 3]],
        vec![vec![0], vec![1], vec![2], vec![3]],
        vec![vec![0, 2, 3], vec![1]],
    ] {
        assert!(list.contains(&grouping));
    }
}

#[test]
fn assignments_hold_no_clustering_twice() {
    for k in 1..=6usize {
        let list = compute_adjacent_assignments(k);
        for i in 0..list.len() {
            for j in i + 1..list.len() {
                assert_ne!(list[i], list[j]);
            }
        }
    }
}

#[test]
fn assignments_are_listed_coarsest_first() {
    for k in 1..=6usize {
        let list = compute_adjacent_assignments(k);
        for i in 0..list.len() {
            for j in i + 1..list.len() {
                assert!(!coarser_precedes(&list[j], &list[i]));
            }
        }
    }
    assert!(coarser_precedes(&vec![vec![0, 1], vec![2]], &vec![vec![0], vec![1], vec![2]]));
    assert!(coarser_precedes(&vec![vec![0, 1, 2]], &vec![vec![0, 1], vec![2]]));
    assert!(coarser_precedes(&vec![vec![0, 1], vec![2, 3]], &vec![vec![0, 1], vec![2], vec![3]]));
    assert!(!coarser_precedes(&vec![vec![0, 1], vec![2]], &vec![vec![0, 2], vec![1]]));
}

#[test]
fn a_mixed_cluster_is_played_in_each_of_its_distinct_orderings() {
    assert_eq!(
        arrangements_of(vec![vec![4, 2, 2]]),
        vec![vec![vec![4, 2, 2]], vec![vec![2, 4, 2]], vec![vec![2, 2, 4]]]
    );
    assert_eq!(arrangements_of(vec![vec![3, 2]]), vec![vec![vec![3, 2]], vec![vec![2, 3]]]);
    assert_eq!(
        arrangements_of(vec![vec![1, 2, 3]]),
        vec![
            vec![vec![1, 2, 3]],
            vec![vec![1, 3, 2]],
            vec![vec![2, 1, 3]],
            vec![vec![2, 3, 1]],
            vec![vec![3, 1, 2]],
            vec![vec![3, 2, 1]]
        ]
    );
}

#[test]
fn combinations_step_through_the_last_list_fastest() {
    assert_eq!(
        combine_permutations(vec![vec![vec![1], vec![2]], vec![vec![3], vec![4], vec![5]]]),
        vec![
            vec![vec![1], vec![3]],
            vec![vec![1], vec![4]],
            vec![vec![1], vec![5]],
            vec![vec![2], vec![3]],
            vec![vec![2], vec![4]],
            vec![vec![2], vec![5]]
        ]
    );
    assert_eq!(combine_permutations(vec![vec![vec![7, 7]]]), vec![vec![vec![7, 7]]]);
    assert_eq!(combine_permutations(vec![]), vec![Vec::<Vec<usize>>::new()]);
    assert_eq!(
        combine_permutations(vec![vec![vec![1]], vec![]]),
        Vec::<Vec<Vec<usize>>>::new()
    );
    assert_eq!(
        combine_permutations(vec![vec![], vec![vec![1]]]),
        Vec::<Vec<Vec<usize>>>::new()
    );
}

#[test]
fn combinations_take_a_repeated_run_once() {
    assert_eq!(
        combine_permutations(vec![
            vec![vec![3, 2], vec![2, 3], vec![3, 2]],
            vec![vec![2], vec![2]]
        ]),
        vec![vec![vec![3, 2], vec![2]], vec![vec![2, 3], vec![2]]]
    );
    assert_eq!(
        combine_permutations(vec![vec![vec![2, 2], vec![2, 2]]]),
        vec![vec![vec![2, 2]]]
    );
}

#[test]
fn arrangements_of_uniform_clusters_are_the_clusters() {
    assert_eq!(
        arrangements_of(vec![vec![3], vec![2, 2]]),
        vec![vec![vec![3], vec![2, 2]]]
    );
    assert_eq!(arrangements_of(vec![]), vec![Vec::<Vec<usize>>::new()]);
}

#[test]
fn arrangements_of_mixed_clusters_are_all_combinations() {
    assert_eq!(
        arrangements_of(vec![vec![3, 2], vec![2]]),
        vec![vec![vec![3, 2], vec![2]], vec![vec![2, 3], vec![2]]]
    );
    assert_eq!(
        arrangements_of(vec![vec![3, 2], vec![4, 2]]),
        vec![
            vec![vec![3, 2], vec![4, 2]],
            vec![vec![3, 2], vec![2, 4]],
            vec![vec![2, 3], vec![4, 2]],
            vec![vec![2, 3], vec![2, 4]]
        ]
    );
}

#[test]
fn canonical_form_lists_the_greatest_run_first() {
    assert_eq!(
        canonical_runs(&vec![vec![1], vec![2, 3], vec![3], vec![2], vec![2, 3, 1]]),
        vec![vec![3], vec![2, 3, 1], vec![2, 3], vec![2], vec![1]]
    );
    assert_eq!(sort_runs(vec![vec![1], vec![4]]), vec![vec![4], vec![1]]);
    assert_eq!(sort_runs(vec![]), Vec::<Vec<usize>>::new());
}

#[test]
fn sequential_tuples_of_a_triple_and_two_pairs() {
    assert_eq!(
        group_into_sequential_tuples(&[3, 2, 2]),
        vec![
            vec![vec![3, 2, 2]],
            vec![vec![2, 3, 2]],
            vec![vec![2, 2, 3]],
            vec![vec![3, 2], vec![2]],
            vec![vec![2, 3], vec![2]],
            vec![vec![3], vec![2, 2]],
            vec![vec![3], vec![2], vec![2]]
        ]
    );
}

#[test]
fn sequential_tuples_leave_out_reordered_shapes() {
    let shapes = group_into_sequential_tuples(&[3, 3, 2, 2]);
    assert!(shapes.contains(&vec![vec![3, 2], vec![2, 3]]));
    assert!(!shapes.contains(&vec![vec![2, 3], vec![3, 2]]));
    for i in 0..shapes.len() {
        for j in i + 1..shapes.len() {
            assert_ne!(canonical_runs(&shapes[i]), canonical_runs(&shapes[j]));
        }
    }
}

#[test]
fn sequential_tuples_of_one_size_and_of_pairs() {
    assert_eq!(group_into_sequential_tuples(&[5]), vec![vec![vec![5]]]);
    assert_eq!(
        group_into_sequential_tuples(&[2, 2]),
        vec![vec![vec![2, 2]], vec![vec![2], vec![2]]]
    );
}

#[test]
fn sequential_tuples_keep_the_number_of_cards() {
    for values in [vec![2usize], vec![3, 2], vec![4, 3, 2], vec![2, 2, 2, 2], vec![5, 3, 3, 2]] {
        let total: usize = values.iter().sum();
        for shape in group_into_sequential_tuples(&values) {
            assert_eq!(shape_total(&shape), total);
        }
    }
}

#[test]
fn full_decompositions_sum_to_n_and_begin_with_the_whole() {
    for n in 1..=9usize {
        let list = full_decomposition_ordering(n);
        assert_eq!(list[0], vec![vec![n]]);
        for shape in &list {
            assert_eq!(shape_total(shape), n);
            assert!(shape.iter().all(|run| !run.is_empty() && run.iter().all(|size| *size >= 1)));
            assert_eq!(&canonical_runs(shape), shape);
        }
        for i in 0..list.len() {
            for j in i + 1..list.len() {
                assert_ne!(list[i], list[j]);
            }
        }
    }
}

#[test]
fn full_decompositions_of_one_and_two() {
    assert_eq!(full_decomposition_ordering(1), vec![vec![vec![1]]]);
    assert_eq!(full_decomposition_ordering(2), vec![vec![vec![2]], vec![vec![1], vec![1]]]);
}

#[test]
fn enumerators_give_the_same_list_each_time() {
    let partitions = find_tuple_partitions(7);
    let assignments = compute_adjacent_assignments(5);
    let full = full_decomposition_ordering(7);
    let runs = group_into_sequential_tuples(&[4, 3, 2]);
    let _ = find_tuple_partitions(3);
    let _ = compute_adjacent_assignments(6);
    let _ = full_decomposition_ordering(8);
    let _ = group_into_sequential_tuples(&[2, 2]);
    assert_eq!(find_tuple_partitions(7), partitions);
    assert_eq!(compute_adjacent_assignments(5), assignments);
    assert_eq!(full_decomposition_ordering(7), full);
    assert_eq!(group_into_sequential_tuples(&[4, 3, 2]), runs);
}
