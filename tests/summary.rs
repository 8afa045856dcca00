use bench_hll::{summarize, ErrorRow};

#[test]
fn three_trials_reduce_to_mean_min_max() {
    // Relative errors [0.1, 0.2], [0.3, 0.1] and [0.2, 0.15] at 10 and 20 items.
    let trials = vec![
        vec![(10, 1), (20, 4)],
        vec![(10, 3), (20, 2)],
        vec![(10, 2), (20, 3)],
    ];
    let rows = summarize(&trials);
    assert_eq!(
        rows,
        vec![
            ErrorRow { items: 10, trials: 3, total_deviation: 6, min_deviation: 1, max_deviation: 3 },
            ErrorRow { items: 20, trials: 3, total_deviation: 9, min_deviation: 2, max_deviation: 4 },
        ]
    );
    // Means 6 / (3 * 10) = 0.2 and 9 / (3 * 20) = 0.15; least 0.1 and 0.1;
    // greatest 0.3 and 0.2.
}

#[test]
fn shortest_trial_bounds_the_summary() {
    let long = vec![(1, 0), (2, 0), (3, 0), (4, 0), (5, 0)];
    let trials = vec![long.clone(), vec![(1, 7), (2, 9)], long];
    let rows = summarize(&trials);
    assert_eq!(rows.len(), 2);
    assert_eq!(rows[1], ErrorRow { items: 2, trials: 3, total_deviation: 9, min_deviation: 0, max_deviation: 9 });
}

#[test]
fn single_trial_summary() {
    let rows = summarize(&vec![vec![(4, 3), (8, 5)]]);
    for (row, dev) in rows.iter().zip([3u64, 5]) {
        assert_eq!(row.total_deviation, dev as u128);
        assert_eq!(row.min_deviation, dev);
        assert_eq!(row.max_deviation, dev);
    }
}

#[test]
fn empty_trial_gives_empty_summary() {
    let rows = summarize(&vec![vec![(1, 1)], vec![]]);
    assert!(rows.is_empty());
}

#[test]
fn large_deviations_sum_without_overflow() {
    let trials = vec![vec![(1, u64::MAX)]; 4];
    let rows = summarize(&trials);
    assert_eq!(rows[0].total_deviation, 4 * (u64::MAX as u128));
    assert_eq!(rows[0].min_deviation, u64::MAX);
}

#[test]
fn items_come_from_first_trial() {
    let rows = summarize(&vec![vec![(5, 0)], vec![(6, 2)]]);
    assert_eq!(rows[0].items, 5);
    assert_eq!(rows[0].total_deviation, 2);
}
