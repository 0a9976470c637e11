use percolation::lattice::PercError;
use percolation::stats::monte_carlo;
use percolation::stats::percolation_examples;
use percolation::stats::percolation_sweep;
use percolation::stats::AggregateStatistics;
use percolation::stats::TrialResult;

#[test]
fn record_accumulates_counts_and_histogram() {
    let mut stats = AggregateStatistics::new();
    stats.record(&TrialResult { spans: true, max_cluster_size: 5, cluster_sizes: vec![5, 2, 2] });
    stats.record(&TrialResult { spans: false, max_cluster_size: 2, cluster_sizes: vec![2, 1] });
    assert_eq!(stats.trials, 2);
    assert_eq!(stats.spanning_trials, 1);
    assert_eq!(stats.max_size_sum, 7);
    assert_eq!(stats.histogram[1], 1);
    assert_eq!(stats.histogram[2], 3);
    assert_eq!(stats.histogram[5], 1);
    assert_eq!(stats.histogram[0], 0);
}

// Aggregation order-independence: merging in either order is identical.
#[test]
fn merge_is_commutative() {
    let mut a = AggregateStatistics::new();
    a.record(&TrialResult { spans: true, max_cluster_size: 4, cluster_sizes: vec![4, 1] });
    a.record(&TrialResult { spans: false, max_cluster_size: 3, cluster_sizes: vec![3] });
    let mut b = AggregateStatistics::new();
    b.record(&TrialResult { spans: true, max_cluster_size: 9, cluster_sizes: vec![9, 2, 1] });
    let ab = AggregateStatistics::merge(&a, &b);
    let ba = AggregateStatistics::merge(&b, &a);
    assert_eq!(ab.trials, ba.trials);
    assert_eq!(ab.spanning_trials, ba.spanning_trials);
    assert_eq!(ab.max_size_sum, ba.max_size_sum);
    assert_eq!(ab.histogram, ba.histogram);
    assert_eq!(ab.trials, 3);
    assert_eq!(ab.spanning_trials, 2);
    assert_eq!(ab.max_size_sum, 16);
    assert_eq!(ab.histogram[1], 2);
    assert_eq!(ab.histogram[9], 1);
}

#[test]
fn merge_equals_sequential_recording() {
    let t1 = TrialResult { spans: true, max_cluster_size: 2, cluster_sizes: vec![2, 2] };
    let t2 = TrialResult { spans: false, max_cluster_size: 1, cluster_sizes: vec![1] };
    let mut a = AggregateStatistics::new();
    a.record(&t1);
    let mut b = AggregateStatistics::new();
    b.record(&t2);
    let merged = AggregateStatistics::merge(&a, &b);
    let mut seq = AggregateStatistics::new();
    seq.record(&t1);
    seq.record(&t2);
    assert_eq!(merged.trials, seq.trials);
    assert_eq!(merged.spanning_trials, seq.spanning_trials);
    assert_eq!(merged.max_size_sum, seq.max_size_sum);
    for v in 0..3 {
        let mv = merged.histogram.get(v).copied().unwrap_or(0);
        let sv = seq.histogram.get(v).copied().unwrap_or(0);
        assert_eq!(mv, sv);
    }
}

#[test]
fn monte_carlo_rejects_invalid_parameters() {
    assert_eq!(monte_carlo(10, 0, 1, 2).unwrap_err(), PercError::InvalidParameter);
    assert_eq!(monte_carlo(10, 4, 3, 2).unwrap_err(), PercError::InvalidParameter);
    assert_eq!(monte_carlo(10, 4, 1, 0).unwrap_err(), PercError::InvalidParameter);
}

#[test]
fn monte_carlo_at_probability_one() {
    let stats = monte_carlo(7, 4, 1, 1).unwrap();
    assert_eq!(stats.trials, 7);
    assert_eq!(stats.spanning_trials, 7);
    assert_eq!(stats.max_size_sum, 7 * 16);
    assert_eq!(stats.histogram[16], 7);
    for v in 0..16 {
        assert_eq!(stats.histogram[v], 0);
    }
}

#[test]
fn monte_carlo_at_probability_zero() {
    let stats = monte_carlo(5, 6, 0, 10).unwrap();
    assert_eq!(stats.trials, 5);
    assert_eq!(stats.spanning_trials, 0);
    assert_eq!(stats.max_size_sum, 0);
    assert!(stats.histogram.iter().all(|&c| c == 0));
}

// Monotonicity, statistically: at p = 1/5 an 8 x 8 lattice practically
// never spans over a few trials, while at p = 1 it always does.
#[test]
fn spanning_rate_grows_with_probability() {
    let low = monte_carlo(20, 8, 1, 5).unwrap();
    let high = monte_carlo(20, 8, 1, 1).unwrap();
    assert!(low.spanning_trials <= high.spanning_trials);
    assert_eq!(high.spanning_trials, 20);
}

#[test]
fn sweep_produces_row_major_points() {
    let ls = vec![2usize, 3];
    let ps = vec![0u64, 10];
    let points = percolation_sweep(&ls, &ps, 10, 3).unwrap();
    assert_eq!(points.len(), 4);
    assert_eq!(points[0].l, 2);
    assert_eq!(points[0].p_num, 0);
    assert_eq!(points[1].l, 2);
    assert_eq!(points[1].p_num, 10);
    assert_eq!(points[2].l, 3);
    assert_eq!(points[2].p_num, 0);
    assert_eq!(points[3].l, 3);
    assert_eq!(points[3].p_num, 10);
    for p in &points {
        assert_eq!(p.p_den, 10);
        assert_eq!(p.stats.trials, 3);
    }
    // the p = 1 column always spans, the p = 0 column never does
    assert_eq!(points[0].stats.spanning_trials, 0);
    assert_eq!(points[1].stats.spanning_trials, 3);
}

#[test]
fn sweep_rejects_invalid_configuration() {
    let ls = vec![2usize, 0];
    let ps = vec![1u64];
    assert_eq!(percolation_sweep(&ls, &ps, 2, 1).unwrap_err(), PercError::InvalidParameter);
    let ls2 = vec![2usize];
    let ps2 = vec![3u64];
    assert_eq!(percolation_sweep(&ls2, &ps2, 2, 1).unwrap_err(), PercError::InvalidParameter);
}

#[test]
fn examples_cover_three_probabilities() {
    let runs = percolation_examples();
    assert_eq!(runs.len(), 3);
    assert_eq!(runs[0].p_num, 40);
    assert_eq!(runs[1].p_num, 60);
    assert_eq!(runs[2].p_num, 80);
    for run in &runs {
        assert_eq!(run.p_den, 100);
        assert_eq!(run.burn_grid.len(), 100);
        assert_eq!(run.label_grid.len(), 100);
        let occupied = run.label_grid.iter().filter(|&&v| v != 0).count();
        let total: usize = run.cluster_sizes.iter().sum();
        assert_eq!(total, occupied);
        for k in 0..100 {
            assert_eq!(run.burn_grid[k] == 0, run.label_grid[k] == 0);
        }
    }
}

// The histogram's support stays within the possible cluster sizes: no
// clusters of size zero and none above the lattice area.
#[test]
fn histogram_support_is_bounded_by_the_lattice() {
    let stats = monte_carlo(5, 4, 1, 2).unwrap();
    if !stats.histogram.is_empty() {
        assert_eq!(stats.histogram[0], 0);
    }
    assert!(stats.histogram.len() <= 17);
    for (size, &count) in stats.histogram.iter().enumerate() {
        if count > 0 {
            assert!(size >= 1 && size <= 16);
        }
    }
}
