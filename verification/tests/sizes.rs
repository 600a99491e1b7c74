use shengji_mechanics::sizes::{
    copy_run, copy_shape, run_precedes, same_run, same_runs, total_of,
};

#[test]
fn the_greater_run_is_listed_first() {
    assert!(run_precedes(&vec![3, 1], &vec![2, 2]));
    assert!(!run_precedes(&vec![2, 2], &vec![3, 1]));
    assert!(run_precedes(&vec![2, 1], &vec![2]));
    assert!(!run_precedes(&vec![2], &vec![2, 1]));
    assert!(!run_precedes(&vec![2], &vec![2]));
    assert!(run_precedes(&vec![1], &vec![]));
    assert!(!run_precedes(&vec![], &vec![]));
}

#[test]
fn runs_are_the_same_if_they_agree_everywhere() {
    assert!(same_run(&vec![2, 3], &vec![2, 3]));
    assert!(!same_run(&vec![2, 3], &vec![3, 2]));
    assert!(!same_run(&vec![2, 3], &vec![2]));
    assert!(same_run(&vec![], &vec![]));
    assert!(same_runs(&vec![vec![2, 3], vec![1]], &vec![vec![2, 3], vec![1]]));
    assert!(!same_runs(&vec![vec![2, 3], vec![1]], &vec![vec![1], vec![2, 3]]));
    assert!(!same_runs(&vec![vec![2, 3]], &vec![vec![2, 3], vec![]]));
}

#[test]
fn copies_are_equal_to_what_they_copy() {
    assert_eq!(copy_run(&vec![4, 2, 2]), vec![4, 2, 2]);
    assert_eq!(copy_shape(&vec![vec![4, 2], vec![], vec![1]]), vec![vec![4, 2], vec![], vec![1]]);
}

#[test]
fn the_total_of_a_run_is_the_sum_of_its_sizes() {
    assert_eq!(total_of(&vec![4, 2, 2]), 8);
    assert_eq!(total_of(&vec![]), 0);
}
