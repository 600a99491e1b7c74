use shengji_mechanics::refinement::subsequent_decomposition_ordering;

fn cards_in(shape: &Vec<Vec<usize>>) -> usize {
    shape.iter().map(|run| run.iter().sum::<usize>()).sum()
}

#[test]
fn a_single_card_is_followed_by_nothing() {
    assert!(subsequent_decomposition_ordering(vec![vec![1]], true).is_empty());
    assert!(subsequent_decomposition_ordering(vec![vec![1]], false).is_empty());
}

#[test]
fn a_pair_is_followed_by_two_singles() {
    assert_eq!(
        subsequent_decomposition_ordering(vec![vec![2]], true),
        vec![vec![vec![1], vec![1]]]
    );
}

#[test]
fn four_of_a_kind_without_new_adjacency() {
    let followers = subsequent_decomposition_ordering(vec![vec![4]], false);
    assert!(!followers.contains(&vec![vec![2, 2]]));
    assert_eq!(
        followers,
        vec![
            vec![vec![3], vec![1]],
            vec![vec![2], vec![2]],
            vec![vec![2], vec![1], vec![1]],
            vec![vec![1], vec![1], vec![1], vec![1]]
        ]
    );
}

#[test]
fn four_of_a_kind_with_new_adjacency() {
    assert_eq!(
        subsequent_decomposition_ordering(vec![vec![4]], true),
        vec![
            vec![vec![3], vec![1]],
            vec![vec![2, 2]],
            vec![vec![2], vec![2]],
            vec![vec![2], vec![1], vec![1]],
            vec![vec![1], vec![1], vec![1], vec![1]]
        ]
    );
}

#[test]
fn singles_are_followed_by_nothing() {
    for count in 0..25usize {
        let shape: Vec<Vec<usize>> = (0..count).map(|_| vec![1]).collect();
        assert!(subsequent_decomposition_ordering(shape.clone(), true).is_empty());
        assert!(subsequent_decomposition_ordering(shape, false).is_empty());
    }
}

#[test]
fn a_shape_with_an_empty_run_is_followed_by_nothing() {
    assert!(subsequent_decomposition_ordering(vec![vec![]], true).is_empty());
    assert!(subsequent_decomposition_ordering(vec![vec![2, 2], vec![]], false).is_empty());
    assert!(subsequent_decomposition_ordering(vec![vec![], vec![0]], true).is_empty());
}

#[test]
fn no_shape_is_followed_by_nothing_but_itself() {
    assert!(subsequent_decomposition_ordering(vec![], true).is_empty());
    assert!(subsequent_decomposition_ordering(vec![], false).is_empty());
}

#[test]
fn runs_are_read_in_canonical_form() {
    assert_eq!(
        subsequent_decomposition_ordering(vec![vec![2, 3]], true),
        subsequent_decomposition_ordering(vec![vec![3, 2]], true)
    );
    assert_eq!(
        subsequent_decomposition_ordering(vec![vec![3, 2]], false),
        vec![
            vec![vec![2, 3]],
            vec![vec![3], vec![2]],
            vec![vec![3], vec![1], vec![1]],
            vec![vec![2, 2], vec![1]],
            vec![vec![2], vec![2], vec![1]],
            vec![vec![2], vec![1], vec![1], vec![1]],
            vec![vec![1], vec![1], vec![1], vec![1], vec![1]]
        ]
    );
}

#[test]
fn the_run_with_more_refinements_left_is_refined_first() {
    assert_eq!(
        subsequent_decomposition_ordering(vec![vec![2], vec![3]], true),
        vec![
            vec![vec![2], vec![2], vec![1]],
            vec![vec![2], vec![1], vec![1], vec![1]],
            vec![vec![1], vec![1], vec![1], vec![1], vec![1]]
        ]
    );
}

#[test]
fn followers_keep_the_number_of_cards() {
    let shapes = [
        vec![vec![4usize, 4]],
        vec![vec![2, 2], vec![3], vec![2]],
        vec![vec![5], vec![1]],
        vec![vec![3, 3, 2]],
    ];
    for shape in shapes {
        let total = cards_in(&shape);
        for allow in [true, false] {
            for follower in subsequent_decomposition_ordering(shape.clone(), allow) {
                assert_eq!(cards_in(&follower), total);
            }
        }
    }
}

#[test]
fn followers_are_the_same_each_time() {
    let first = subsequent_decomposition_ordering(vec![vec![4, 4]], true);
    let _ = subsequent_decomposition_ordering(vec![vec![3], vec![3]], false);
    assert_eq!(subsequent_decomposition_ordering(vec![vec![4, 4]], true), first);
}
