use shengji_mechanics::adjacency::compute_adjacent_assignments;
use shengji_mechanics::decomposition::full_decomposition_ordering;
use shengji_mechanics::memo::Memo;
use shengji_mechanics::partitions::find_tuple_partitions;
use shengji_mechanics::refinement::subsequent_decomposition_ordering;
use shengji_mechanics::runs::group_into_sequential_tuples;

#[test]
fn tables_give_what_the_enumerators_give() {
    let mut memo = Memo::new();
    for n in 1..=8usize {
        assert_eq!(memo.find_tuple_partitions(n), find_tuple_partitions(n));
        assert_eq!(memo.full_decomposition_ordering(n), full_decomposition_ordering(n));
    }
    for k in 1..=6usize {
        assert_eq!(memo.compute_adjacent_assignments(k), compute_adjacent_assignments(k));
    }
    assert_eq!(
        memo.group_into_sequential_tuples(&[4, 3, 2]),
        group_into_sequential_tuples(&[4, 3, 2])
    );
    for allow in [true, false] {
        assert_eq!(
            memo.subsequent_decomposition_ordering(vec![vec![4, 4]], allow),
            subsequent_decomposition_ordering(vec![vec![4, 4]], allow)
        );
    }
}

#[test]
fn tables_answer_the_same_whatever_was_asked_before() {
    let mut fresh = Memo::new();
    let first = fresh.full_decomposition_ordering(6);

    let mut used = Memo::new();
    let _ = used.full_decomposition_ordering(8);
    let _ = used.find_tuple_partitions(3);
    let _ = used.compute_adjacent_assignments(5);
    let _ = used.subsequent_decomposition_ordering(vec![vec![3], vec![2, 2]], false);
    assert_eq!(used.full_decomposition_ordering(6), first);
    assert_eq!(used.full_decomposition_ordering(6), first);
    assert_eq!(fresh.full_decomposition_ordering(6), first);

    let partitions = used.find_tuple_partitions(9);
    let _ = used.find_tuple_partitions(4);
    assert_eq!(used.find_tuple_partitions(9), partitions);
    assert_eq!(Memo::new().find_tuple_partitions(9), partitions);

    let assignments = used.compute_adjacent_assignments(4);
    let _ = used.compute_adjacent_assignments(6);
    assert_eq!(used.compute_adjacent_assignments(4), assignments);
    assert_eq!(used.compute_adjacent_assignments(1), vec![vec![vec![0]]]);
}

#[test]
fn tables_take_a_shape_with_an_empty_run() {
    let mut memo = Memo::new();
    assert!(memo.subsequent_decomposition_ordering(vec![vec![2], vec![]], true).is_empty());
    assert_eq!(
        memo.subsequent_decomposition_ordering(vec![vec![2]], true),
        vec![vec![vec![1], vec![1]]]
    );
}
