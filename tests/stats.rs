use pixel_sweep::stats::{floor_sqrt, summarize, StatsError, Summary};

#[test]
fn constant_series_has_zero_deviation() {
    for n in [1usize, 2, 10, 999] {
        for d in [0u64, 1, 1_000_000, u64::MAX] {
            let values = vec![d; n];
            assert_eq!(summarize(&values), Ok(Summary { mean_ns: d, stddev_ns: 0 }));
        }
    }
}

#[test]
fn mean_and_population_deviation() {
    // mean 10/4 = 2; squared deviations 1 + 0 + 1 + 4 = 6; 6 / 4 = 1; sqrt 1
    assert_eq!(summarize(&vec![1, 2, 3, 4]), Ok(Summary { mean_ns: 2, stddev_ns: 1 }));
    // mean 5; squared deviations 9 + 1 + 1 + 1 + 0 + 0 + 4 + 16 = 32; 32 / 8 = 4; sqrt 2
    assert_eq!(
        summarize(&vec![2, 4, 4, 4, 5, 5, 7, 9]),
        Ok(Summary { mean_ns: 5, stddev_ns: 2 })
    );
    assert_eq!(summarize(&vec![0, 100]), Ok(Summary { mean_ns: 50, stddev_ns: 50 }));
}

#[test]
fn empty_series_is_refused() {
    assert_eq!(summarize(&Vec::new()), Err(StatsError::Empty));
}

#[test]
fn huge_spread_is_summarised() {
    // mean (4 * MAX) / 8 = MAX / 2; deviations MAX / 2 and MAX / 2 + 1 alternate,
    // so the variance is (MAX / 2) * (MAX / 2 + 1) and its square root MAX / 2
    let values = vec![0, u64::MAX, 0, u64::MAX, 0, u64::MAX, 0, u64::MAX];
    assert_eq!(
        summarize(&values),
        Ok(Summary { mean_ns: u64::MAX / 2, stddev_ns: u64::MAX / 2 })
    );
    assert_eq!(summarize(&vec![0, u64::MAX]).unwrap().mean_ns, u64::MAX / 2);
    assert_eq!(summarize(&vec![u64::MAX]), Ok(Summary { mean_ns: u64::MAX, stddev_ns: 0 }));
}

#[test]
fn floor_sqrt_exact_values() {
    assert_eq!(floor_sqrt(0), 0);
    assert_eq!(floor_sqrt(1), 1);
    assert_eq!(floor_sqrt(15), 3);
    assert_eq!(floor_sqrt(16), 4);
    assert_eq!(floor_sqrt(17), 4);
    assert_eq!(floor_sqrt(u128::MAX), u64::MAX);
    assert_eq!(floor_sqrt((u64::MAX as u128) * (u64::MAX as u128)), u64::MAX);
}
