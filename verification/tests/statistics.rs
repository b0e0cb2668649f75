use chrommydoggymommy::counts::{add_counts, counts_fit_exec, nth_smallest, total_count};
use chrommydoggymommy::stats::{port_statistics, PortStatistics};
use std::collections::HashMap;

fn freq(pairs: &[(usize, usize)]) -> HashMap<usize, usize> {
    pairs.iter().cloned().collect()
}

#[test]
fn total_of_counts() {
    assert_eq!(total_count(&freq(&[(3, 2), (5, 4), (9, 1)])), Some(7));
    assert_eq!(total_count(&freq(&[])), Some(0));
}

#[test]
fn total_that_overflows() {
    assert_eq!(total_count(&freq(&[(1, usize::MAX), (2, 1)])), None);
}

#[test]
fn nth_smallest_walks_the_sorted_runs() {
    // runs: 3 3 5 5 5 5 9
    let m = freq(&[(9, 1), (3, 2), (5, 4)]);
    assert_eq!(nth_smallest(&m, 0), Some(3));
    assert_eq!(nth_smallest(&m, 1), Some(3));
    assert_eq!(nth_smallest(&m, 2), Some(5));
    assert_eq!(nth_smallest(&m, 5), Some(5));
    assert_eq!(nth_smallest(&m, 6), Some(9));
    assert_eq!(nth_smallest(&m, 7), None);
}

#[test]
fn quartiles_of_the_runs() {
    // runs 4 6 8 8: indices 4 / 4 = 1 and ceil(3 * 4 / 4) - 1 = 2
    let m = freq(&[(4, 1), (6, 1), (8, 2)]);
    assert_eq!(
        port_statistics(&m),
        Some(PortStatistics { total_runs: 4, lower_quartile: 6, upper_quartile: 8, interquartile_range: 2 })
    );
}

#[test]
fn quartiles_of_repeated_runs() {
    // runs: 10 10 10 20 30 40 40: indices 1 and ceil(21 / 4) - 1 = 5
    let m = freq(&[(10, 3), (20, 1), (30, 1), (40, 2)]);
    assert_eq!(
        port_statistics(&m),
        Some(PortStatistics { total_runs: 7, lower_quartile: 10, upper_quartile: 40, interquartile_range: 30 })
    );
}

#[test]
fn quartiles_of_spread_runs() {
    // eight runs, one of each count: indices 2 and 5
    let m = freq(&[(1, 1), (2, 1), (3, 1), (4, 1), (5, 1), (6, 1), (7, 1), (8, 1)]);
    assert_eq!(
        port_statistics(&m),
        Some(PortStatistics { total_runs: 8, lower_quartile: 3, upper_quartile: 6, interquartile_range: 3 })
    );
}

#[test]
fn quartiles_of_one_count() {
    let m = freq(&[(42, 5)]);
    assert_eq!(
        port_statistics(&m),
        Some(PortStatistics { total_runs: 5, lower_quartile: 42, upper_quartile: 42, interquartile_range: 0 })
    );
}

#[test]
fn no_statistics_without_runs() {
    assert_eq!(port_statistics(&freq(&[])), None);
    assert_eq!(port_statistics(&freq(&[(1, 0), (2, 0)])), None);
    // counts of zero beside real runs do not count as runs
    assert_eq!(
        port_statistics(&freq(&[(1, 0), (5, 2)])),
        Some(PortStatistics { total_runs: 2, lower_quartile: 5, upper_quartile: 5, interquartile_range: 0 })
    );
}

#[test]
fn no_statistics_when_the_total_overflows() {
    assert_eq!(port_statistics(&freq(&[(1, usize::MAX), (2, 1)])), None);
}

#[test]
fn adding_counts_merges_keys() {
    let mut a = freq(&[(1, 2), (2, 3)]);
    let b = freq(&[(2, 4), (7, 1)]);
    assert!(counts_fit_exec(&a, &b));
    add_counts(&mut a, &b);
    assert_eq!(a, freq(&[(1, 2), (2, 7), (7, 1)]));
    assert_eq!(total_count(&a), Some(10));
}

#[test]
fn counts_that_do_not_fit() {
    let a = freq(&[(1, usize::MAX)]);
    assert!(!counts_fit_exec(&a, &freq(&[(1, 1)])));
    assert!(counts_fit_exec(&a, &freq(&[(2, 1)])));
}
