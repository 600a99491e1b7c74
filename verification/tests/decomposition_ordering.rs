use shengji_mechanics::adjacency::compute_adjacent_assignments;
use shengji_mechanics::decomposition::full_decomposition_ordering;
use shengji_mechanics::partitions::find_tuple_partitions;
use shengji_mechanics::refinement::subsequent_decomposition_ordering;
use shengji_mechanics::sizes::PlayRequirements;

#[test]
fn test_subsequent_decomposition_ordering() {
    let f = |r: PlayRequirements| -> Vec<Vec<Vec<usize>>> {
        subsequent_decomposition_ordering(r, true)
            .into_iter()
            .map(|x| x.iter().map(|y| y.to_vec()).collect::<Vec<_>>())
            .collect::<Vec<_>>()
    };
    let g = |r: PlayRequirements| -> Vec<Vec<Vec<usize>>> {
        subsequent_decomposition_ordering(r, false)
            .into_iter()
            .map(|x| x.iter().map(|y| y.to_vec()).collect::<Vec<_>>())
            .collect::<Vec<_>>()
    };

    assert!(f(vec![vec![1]]).is_empty());
    assert!(g(vec![vec![1]]).is_empty());
    assert_eq!(f(vec![vec![2]]), vec![vec![vec![1], vec![1]]]);
    assert_eq!(g(vec![vec![2]]), vec![vec![vec![1], vec![1]]]);
    assert_eq!(
        f(vec![vec![3]]),
        vec![vec![vec![2], vec![1]], vec![vec![1], vec![1], vec![1]]]
    );
    assert_eq!(
        g(vec![vec![3]]),
        vec![vec![vec![2], vec![1]], vec![vec![1], vec![1], vec![1]]]
    );
    assert_eq!(
        f(vec![vec![4]]),
        vec![
            vec![vec![3], vec![1]],
            vec![vec![2, 2]],
            vec![vec![2], vec![2]],
            vec![vec![2], vec![1], vec![1]],
            vec![vec![1], vec![1], vec![1], vec![1]]
        ]
    );
    assert_eq!(
        g(vec![vec![4]]),
        vec![
            vec![vec![3], vec![1]],
            vec![vec![2], vec![2]],
            vec![vec![2], vec![1], vec![1]],
            vec![vec![1], vec![1], vec![1], vec![1]]
        ]
    );
    assert_eq!(
        f(vec![vec![2, 2]]),
        vec![
            vec![vec![2], vec![2]],
            vec![vec![2], vec![1], vec![1]],
            vec![vec![1], vec![1], vec![1], vec![1]]
        ]
    );
    assert_eq!(
        g(vec![vec![2, 2]]),
        vec![
            vec![vec![2], vec![2]],
            vec![vec![2], vec![1], vec![1]],
            vec![vec![1], vec![1], vec![1], vec![1]]
        ]
    );
    assert_eq!(
        f(vec![vec![2], vec![2]]),
        vec![
            vec![vec![2], vec![1], vec![1]],
            vec![vec![1], vec![1], vec![1], vec![1]]
        ]
    );
    assert_eq!(
        g(vec![vec![2], vec![2]]),
        vec![
            vec![vec![2], vec![1], vec![1]],
            vec![vec![1], vec![1], vec![1], vec![1]]
        ]
    );
    assert_eq!(
        f(vec![vec![4]]),
        vec![
            vec![vec![3], vec![1]],
            vec![vec![2, 2]],
            vec![vec![2], vec![2]],
            vec![vec![2], vec![1], vec![1]],
            vec![vec![1], vec![1], vec![1], vec![1]],
        ]
    );
    assert_eq!(
        g(vec![vec![4]]),
        vec![
            vec![vec![3], vec![1]],
            vec![vec![2], vec![2]],
            vec![vec![2], vec![1], vec![1]],
            vec![vec![1], vec![1], vec![1], vec![1]],
        ]
    );
    assert_eq!(
        f(vec![vec![4, 4]]),
        vec![
            vec![vec![4], vec![4]],
            vec![vec![4, 3], vec![1]],
            vec![vec![3, 4], vec![1]],
            vec![vec![4], vec![3], vec![1]],
            vec![vec![4, 2, 2]],
            vec![vec![2, 4, 2]],
            vec![vec![2, 2, 4]],
            vec![vec![4, 2], vec![2]],
            vec![vec![2, 4], vec![2]],
            vec![vec![4], vec![2, 2]],
            vec![vec![4], vec![2], vec![2]],
            vec![vec![4, 2], vec![1], vec![1]],
            vec![vec![2, 4], vec![1], vec![1]],
            vec![vec![4], vec![2], vec![1], vec![1]],
            vec![vec![4], vec![1], vec![1], vec![1], vec![1]],
            vec![vec![3, 3, 2]],
            vec![vec![3, 2, 3]],
            vec![vec![2, 3, 3]],
            vec![vec![3, 3], vec![2]],
            vec![vec![3, 2], vec![3]],
            vec![vec![3], vec![2, 3]],
            vec![vec![3], vec![3], vec![2]],
            vec![vec![3, 3], vec![1], vec![1]],
            vec![vec![3], vec![3], vec![1], vec![1]],
            vec![vec![3, 2, 2], vec![1]],
            vec![vec![2, 3, 2], vec![1]],
            vec![vec![2, 2, 3], vec![1]],
            vec![vec![3, 2], vec![2], vec![1]],
            vec![vec![2, 3], vec![2], vec![1]],
            vec![vec![3], vec![2, 2], vec![1]],
            vec![vec![3], vec![2], vec![2], vec![1]],
            vec![vec![3, 2], vec![1], vec![1], vec![1]],
            vec![vec![2, 3], vec![1], vec![1], vec![1]],
            vec![vec![3], vec![2], vec![1], vec![1], vec![1]],
            vec![vec![3], vec![1], vec![1], vec![1], vec![1], vec![1]],
            vec![vec![2, 2, 2, 2]],
            vec![vec![2, 2, 2], vec![2]],
            vec![vec![2, 2], vec![2, 2]],
            vec![vec![2, 2], vec![2], vec![2]],
            vec![vec![2], vec![2], vec![2], vec![2]],
            vec![vec![2, 2, 2], vec![1], vec![1]],
            vec![vec![2, 2], vec![2], vec![1], vec![1]],
            vec![vec![2], vec![2], vec![2], vec![1], vec![1]],
            vec![vec![2, 2], vec![1], vec![1], vec![1], vec![1]],
            vec![vec![2], vec![2], vec![1], vec![1], vec![1], vec![1]],
            vec![
                vec![2],
                vec![1],
                vec![1],
                vec![1],
                vec![1],
                vec![1],
                vec![1]
            ],
            vec![
                vec![1],
                vec![1],
                vec![1],
                vec![1],
                vec![1],
                vec![1],
                vec![1],
                vec![1]
            ]
        ]
    );
    assert_eq!(
        g(vec![vec![4, 4]]),
        vec![
            vec![vec![4], vec![4]],
            vec![vec![4, 3], vec![1]],
            vec![vec![3, 4], vec![1]],
            vec![vec![4], vec![3], vec![1]],
            vec![vec![4, 2, 2]],
            vec![vec![2, 4, 2]],
            vec![vec![2, 2, 4]],
            vec![vec![4, 2], vec![2]],
            vec![vec![2, 4], vec![2]],
            vec![vec![4], vec![2, 2]],
            vec![vec![4], vec![2], vec![2]],
            vec![vec![4, 2], vec![1], vec![1]],
            vec![vec![2, 4], vec![1], vec![1]],
            vec![vec![4], vec![2], vec![1], vec![1]],
            vec![vec![4], vec![1], vec![1], vec![1], vec![1]],
            vec![vec![3, 3, 2]],
            vec![vec![3, 2, 3]],
            vec![vec![2, 3, 3]],
            vec![vec![3, 3], vec![2]],
            vec![vec![3, 2], vec![3]],
            vec![vec![3], vec![2, 3]],
            vec![vec![3], vec![3], vec![2]],
            vec![vec![3, 3], vec![1], vec![1]],
            vec![vec![3], vec![3], vec![1], vec![1]],
            vec![vec![3, 2, 2], vec![1]],
            vec![vec![2, 3, 2], vec![1]],
            vec![vec![2, 2, 3], vec![1]],
            vec![vec![3, 2], vec![2], vec![1]],
            vec![vec![2, 3], vec![2], vec![1]],
            vec![vec![3], vec![2, 2], vec![1]],
            vec![vec![3], vec![2], vec![2], vec![1]],
            vec![vec![3, 2], vec![1], vec![1], vec![1]],
            vec![vec![2, 3], vec![1], vec![1], vec![1]],
            vec![vec![3], vec![2], vec![1], vec![1], vec![1]],
            vec![vec![3], vec![1], vec![1], vec![1], vec![1], vec![1]],
            vec![vec![2, 2, 2, 2]],
            vec![vec![2, 2, 2], vec![2]],
            vec![vec![2, 2], vec![2, 2]],
            vec![vec![2, 2], vec![2], vec![2]],
            vec![vec![2], vec![2], vec![2], vec![2]],
            vec![vec![2, 2, 2], vec![1], vec![1]],
            vec![vec![2, 2], vec![2], vec![1], vec![1]],
            vec![vec![2], vec![2], vec![2], vec![1], vec![1]],
            vec![vec![2, 2], vec![1], vec![1], vec![1], vec![1]],
            vec![vec![2], vec![2], vec![1], vec![1], vec![1], vec![1]],
            vec![
                vec![2],
                vec![1],
                vec![1],
                vec![1],
                vec![1],
                vec![1],
                vec![1]
            ],
            vec![
                vec![1],
                vec![1],
                vec![1],
                vec![1],
                vec![1],
                vec![1],
                vec![1],
                vec![1]
            ]
        ]
    );

    assert_eq!(
        f(vec![vec![2, 2], vec![3], vec![2]]),
        vec![
            vec![vec![3], vec![2], vec![2], vec![2]],
            vec![vec![3], vec![2], vec![2], vec![1], vec![1]],
            vec![vec![2], vec![2], vec![2], vec![1], vec![1], vec![1]],
            vec![
                vec![2],
                vec![2],
                vec![1],
                vec![1],
                vec![1],
                vec![1],
                vec![1]
            ],
            vec![
                vec![2],
                vec![1],
                vec![1],
                vec![1],
                vec![1],
                vec![1],
                vec![1],
                vec![1]
            ],
            vec![
                vec![1],
                vec![1],
                vec![1],
                vec![1],
                vec![1],
                vec![1],
                vec![1],
                vec![1],
                vec![1]
            ]
        ]
    );

    for i in 1..25 {
        // Construct all-ones
        let mut x = vec![];
        for _ in 0..i {
            x.push(vec![1]);
        }
        assert!(f(x.clone()).is_empty());

        // Construct all-3s
        let mut x = vec![];
        for _ in 0..i {
            x.push(vec![3]);
        }
        // Start with all 3s, a 2, and a 1
        let mut expected = vec![];
        for _ in 0..i - 1 {
            expected.push(vec![3]);
        }
        expected.push(vec![2]);
        expected.push(vec![1]);
        let mut res = f(x);
        res.reverse();
        while let Some(r) = res.pop() {
            assert_eq!(r, expected);
            // Replace a 3 with a 2 and a 1, or a 2 with a 1 and a 1.
            let mut v = expected.remove(0);
            assert!(v[0] >= 1);
            v[0] -= 1;
            let idx = match expected.iter().rposition(|z| *z == v) {
                Some(idx) => idx,
                None => {
                    assert!(res.is_empty());
                    break;
                }
            };
            expected.insert(idx, v);
            expected.push(vec![1]);
        }
    }
}

#[test]
fn test_full_decomposition_ordering() {
    let f = |n| -> Vec<Vec<Vec<usize>>> {
        full_decomposition_ordering(n)
            .into_iter()
            .map(|x| x.iter().map(|y| y.to_vec()).collect::<Vec<_>>())
            .collect::<Vec<_>>()
    };
    assert_eq!(f(1), vec![vec![vec![1]]]);
    assert_eq!(f(2), vec![vec![vec![2]], vec![vec![1], vec![1]]]);
    assert_eq!(
        f(3),
        vec![
            vec![vec![3]],
            vec![vec![2], vec![1]],
            vec![vec![1], vec![1], vec![1]]
        ]
    );
    assert_eq!(
        f(4),
        vec![
            vec![vec![4]],
            vec![vec![3], vec![1]],
            vec![vec![2, 2]],
            vec![vec![2], vec![2]],
            vec![vec![2], vec![1], vec![1]],
            vec![vec![1], vec![1], vec![1], vec![1]]
        ]
    );
    assert_eq!(
        f(5),
        vec![
            vec![vec![5]],
            vec![vec![4], vec![1]],
            vec![vec![3, 2]],
            vec![vec![2, 3]],
            vec![vec![3], vec![2]],
            vec![vec![3], vec![1], vec![1]],
            vec![vec![2, 2], vec![1]],
            vec![vec![2], vec![2], vec![1]],
            vec![vec![2], vec![1], vec![1], vec![1]],
            vec![vec![1], vec![1], vec![1], vec![1], vec![1]]
        ]
    );
    assert_eq!(
        f(6),
        vec![
            vec![vec![6]],
            vec![vec![5], vec![1]],
            vec![vec![4, 2]],
            vec![vec![2, 4]],
            vec![vec![4], vec![2]],
            vec![vec![4], vec![1], vec![1]],
            vec![vec![3, 3]],
            vec![vec![3], vec![3]],
            vec![vec![3, 2], vec![1]],
            vec![vec![2, 3], vec![1]],
            vec![vec![3], vec![2], vec![1]],
            vec![vec![3], vec![1], vec![1], vec![1]],
            vec![vec![2, 2, 2]],
            vec![vec![2, 2], vec![2]],
            vec![vec![2], vec![2], vec![2]],
            vec![vec![2, 2], vec![1], vec![1]],
            vec![vec![2], vec![2], vec![1], vec![1]],
            vec![vec![2], vec![1], vec![1], vec![1], vec![1]],
            vec![vec![1], vec![1], vec![1], vec![1], vec![1], vec![1]]
        ]
    );
}

#[test]
fn test_compute_adjacent_assignments() {
    let f = |n| -> Vec<Vec<Vec<usize>>> {
        compute_adjacent_assignments(n)
            .into_iter()
            .map(|x| x.iter().map(|y| y.to_vec()).collect::<Vec<_>>())
            .collect::<Vec<_>>()
    };
    assert_eq!(f(1), vec![vec![vec![0]]]);
    assert_eq!(f(2), vec![vec![vec![0, 1]], vec![vec![0], vec![1]]]);
    assert_eq!(
        f(3),
        vec![
            vec![vec![0, 1, 2]],
            vec![vec![0, 1], vec![2]],
            vec![vec![0, 2], vec![1]],
            vec![vec![0], vec![1, 2]],
            vec![vec![0], vec![1], vec![2]]
        ]
    );
    assert_eq!(
        f(4),
        vec![
            vec![vec![0, 1, 2, 3]],
            vec![vec![0, 1, 2], vec![3]],
            vec![vec![0, 1, 3], vec![2]],
            vec![vec![0, 2, 3], vec![1]],
            vec![vec![0], vec![1, 2, 3]],
            vec![vec![0, 1], vec![2, 3]],
            vec![vec![0, 2], vec![1, 3]],
            vec![vec![0, 3], vec![1, 2]],
            vec![vec![0, 1], vec![2], vec![3]],
            vec![vec![0, 2], vec![1], vec![3]],
            vec![vec![0], vec![1, 2], vec![3]],
            vec![vec![0, 3], vec![1], vec![2]],
            vec![vec![0], vec![1, 3], vec![2]],
            vec![vec![0], vec![1], vec![2, 3]],
            vec![vec![0], vec![1], vec![2], vec![3]]
        ]
    );
}

#[test]
fn test_find_tuple_partitions() {
    let f = |n| -> Vec<Vec<usize>> {
        find_tuple_partitions(n)
            .into_iter()
            .map(|x| x.to_vec())
            .collect::<Vec<_>>()
    };
    assert_eq!(f(1), vec![vec![1]]);
    assert_eq!(f(2), vec![vec![2], vec![1, 1]]);
    assert_eq!(f(3), vec![vec![3], vec![2, 1], vec![1, 1, 1]]);

    assert_eq!(
        f(4),
        vec![
            vec![4],
            vec![3, 1],
            vec![2, 2],
            vec![2, 1, 1],
            vec![1, 1, 1, 1]
        ]
    );

    assert_eq!(
        f(5),
        vec![
            vec![5],
            vec![4, 1],
            vec![3, 2],
            vec![3, 1, 1],
            vec![2, 2, 1],
            vec![2, 1, 1, 1],
            vec![1, 1, 1, 1, 1]
        ]
    );
    assert_eq!(
        f(6),
        vec![
            vec![6],
            vec![5, 1],
            vec![4, 2],
            vec![4, 1, 1],
            vec![3, 3],
            vec![3, 2, 1],
            vec![3, 1, 1, 1],
            vec![2, 2, 2],
            vec![2, 2, 1, 1],
            vec![2, 1, 1, 1, 1],
            vec![1, 1, 1, 1, 1, 1]
        ]
    );
}
