use shengji_mechanics::adjacency::{assignments_from, compute_adjacent_assignments};
use shengji_mechanics::decomposition::{
    decompositions_from, full_decomposition_ordering, leading_tuples,
};
use shengji_mechanics::partitions::{find_tuple_partitions, partitions_from};
use shengji_mechanics::refinement::{
    follow, has_empty, sort_each_run, subsequent_decomposition_ordering,
};
use shengji_mechanics::runs::{group_into_sequential_tuples, sequences_under};

#[test]
fn partitions_come_from_the_partitions_of_one_card_less() {
    assert_eq!(partitions_from(vec![], 1), vec![vec![1]]);
    assert_eq!(partitions_from(vec![vec![1]], 2), vec![vec![2], vec![1, 1]]);
    assert_eq!(
        partitions_from(find_tuple_partitions(4), 5),
        vec![
            vec![5],
            vec![4, 1],
            vec![3, 2],
            vec![3, 1, 1],
            vec![2, 2, 1],
            vec![2, 1, 1, 1],
            vec![1, 1, 1, 1, 1]
        ]
    );
}

#[test]
fn assignments_come_from_the_assignments_of_one_position_less() {
    assert_eq!(assignments_from(vec![], 1), vec![vec![vec![0]]]);
    assert_eq!(
        assignments_from(vec![vec![vec![0]]], 2),
        vec![vec![vec![0, 1]], vec![vec![0], vec![1]]]
    );
    assert_eq!(
        assignments_from(compute_adjacent_assignments(2), 3),
        vec![
            vec![vec![0, 1, 2]],
            vec![vec![0, 1], vec![2]],
            vec![vec![0, 2], vec![1]],
            vec![vec![0], vec![1, 2]],
            vec![vec![0], vec![1], vec![2]]
        ]
    );
}

#[test]
fn sequences_follow_the_clusterings_given() {
    assert_eq!(
        sequences_under(&[3, 2, 2], compute_adjacent_assignments(3)),
        group_into_sequential_tuples(&[3, 2, 2])
    );
    assert_eq!(
        sequences_under(&[3, 2], vec![vec![vec![1, 0]]]),
        vec![vec![vec![2, 3]], vec![vec![3, 2]]]
    );
    assert_eq!(
        sequences_under(&[3, 2], vec![vec![vec![1], vec![0]], vec![vec![0], vec![1]]]),
        vec![vec![vec![2], vec![3]]]
    );
    assert_eq!(sequences_under(&[3, 2], vec![]), Vec::<Vec<Vec<usize>>>::new());
}

#[test]
fn leading_tuples_end_at_the_first_single() {
    assert_eq!(leading_tuples(&vec![3, 2, 1, 1]), vec![3, 2]);
    assert_eq!(leading_tuples(&vec![1, 1]), Vec::<usize>::new());
    assert_eq!(leading_tuples(&vec![4]), vec![4]);
    assert_eq!(leading_tuples(&vec![]), Vec::<usize>::new());
}

#[test]
fn decompositions_complete_the_arrangements_by_singles() {
    assert_eq!(
        decompositions_from(vec![vec![2, 1]], vec![vec![vec![vec![2]]]]),
        vec![vec![vec![2], vec![1]]]
    );
    assert_eq!(
        decompositions_from(
            vec![vec![3, 2, 1], vec![1, 1]],
            vec![vec![vec![vec![2, 3]], vec![vec![2], vec![3]], vec![vec![3], vec![2]]], vec![]]
        ),
        vec![
            vec![vec![2, 3], vec![1]],
            vec![vec![3], vec![2], vec![1]],
            vec![vec![1], vec![1]]
        ]
    );
    assert_eq!(decompositions_from(vec![], vec![]), Vec::<Vec<Vec<usize>>>::new());
}

#[test]
fn empty_runs_are_found() {
    assert!(has_empty(&vec![vec![2], vec![]]));
    assert!(!has_empty(&vec![vec![2], vec![1]]));
    assert!(!has_empty(&vec![]));
}

#[test]
fn runs_are_sorted_each_for_itself() {
    assert_eq!(
        sort_each_run(vec![vec![2, 3, 1], vec![1, 4], vec![]]),
        vec![vec![3, 2, 1], vec![4, 1], vec![]]
    );
}

#[test]
fn the_walk_follows_the_lists_given() {
    assert_eq!(
        follow(vec![vec![2]], vec![full_decomposition_ordering(2)], true),
        vec![vec![vec![1], vec![1]]]
    );
    assert_eq!(
        follow(vec![vec![4, 4]], vec![full_decomposition_ordering(8)], false),
        subsequent_decomposition_ordering(vec![vec![4, 4]], false)
    );
    // a run that its list does not hold has nothing to fall back on
    assert_eq!(
        follow(vec![vec![2]], vec![vec![vec![vec![1], vec![1]]]], true),
        Vec::<Vec<Vec<usize>>>::new()
    );
    // what stands behind the run in its list is taken in turn
    assert_eq!(
        follow(
            vec![vec![2], vec![3]],
            vec![
                vec![vec![vec![2]], vec![vec![1], vec![1]]],
                vec![vec![vec![3]], vec![vec![2, 1]], vec![vec![1], vec![1], vec![1]]]
            ],
            false
        ),
        vec![
            vec![vec![2], vec![1], vec![1], vec![1]],
            vec![vec![1], vec![1], vec![1], vec![1], vec![1]]
        ]
    );
}
