use libcoral::coreset::{Coreset, ParallelCoreset};
use libcoral::metricdata::MetricView;

/// Distance matrix where d(i, j) = |i - j| * 10: symmetric, zero diagonal.
fn line_view(n: usize) -> MetricView {
    let mut d: Vec<u64> = Vec::new();
    for i in 0..n {
        for j in 0..n {
            let diff = if i >= j { i - j } else { j - i };
            d.push((diff as u64) * 10);
        }
    }
    MetricView::new(n, 1, d)
}

#[test]
fn coreset_size_bound_when_input_is_large_enough() {
    let view = line_view(5);
    let mut coreset = Coreset::new(3);
    coreset.fit_predict(&view, None);
    let points = coreset.points.as_ref().unwrap();
    assert_eq!(points.num_points(), 3);
}

#[test]
fn coreset_size_bound_when_input_is_small() {
    let view = line_view(2);
    let mut coreset = Coreset::new(7);
    coreset.fit_predict(&view, None);
    let points = coreset.points.as_ref().unwrap();
    assert_eq!(points.num_points(), 2);
}

#[test]
fn coreset_points_accessor_mirrors_state() {
    let coreset = Coreset::new(3);
    assert!(coreset.coreset_points().is_none());
    let view = line_view(5);
    let mut coreset = Coreset::new(3);
    coreset.fit_predict(&view, None);
    assert!(coreset.coreset_points().is_some());
}

#[test]
fn coreset_is_greedy_selection_of_input() {
    let view = line_view(5);
    let mut coreset = Coreset::new(3);
    coreset.fit_predict(&view, None);
    let points = coreset.points.as_ref().unwrap();
    // Greedy selection with budget 3 picks rows 0, 4, 2 in that order; the
    // coreset is the input restricted to those rows.
    assert_eq!(points.d, vec![0, 40, 20, 40, 0, 20, 20, 20, 0]);
    assert_eq!(points.dimensions(), 1);
}

#[test]
fn single_worker_parallel_matches_sequential() {
    let view = line_view(5);
    let mut sequential = Coreset::new(3);
    sequential.fit_predict(&view, None);
    let seq_points = sequential.points.as_ref().unwrap();

    let mut parallel = ParallelCoreset::new(3, 1);
    parallel.fit(&view, None);
    let par_points = parallel.points.as_ref().unwrap();

    assert_eq!(par_points.num_points(), seq_points.num_points());
    assert_eq!(par_points.dimensions(), seq_points.dimensions());
    assert_eq!(par_points.d, seq_points.d);
}

#[test]
fn parallel_coreset_two_workers() {
    let view = line_view(5);
    let mut parallel = ParallelCoreset::new(3, 2);
    parallel.fit(&view, None);
    let points = parallel.points.as_ref().unwrap();
    assert_eq!(points.num_points(), 3);
    // Shard 0 holds rows 0..3, shard 1 rows 3..5; the merge reduces the
    // candidates 0, 2, 1, 3, 4 back to rows 0, 4, 2.
    assert_eq!(points.d, vec![0, 40, 20, 40, 0, 20, 20, 20, 0]);
}

#[test]
fn parallel_coreset_more_workers_than_points() {
    let view = line_view(2);
    let mut parallel = ParallelCoreset::new(3, 4);
    parallel.fit(&view, None);
    let points = parallel.points.as_ref().unwrap();
    // Two of the four shards are empty; the candidates are both points.
    assert_eq!(points.num_points(), 2);
    assert_eq!(points.d, vec![0, 10, 10, 0]);
}

#[test]
fn parallel_coreset_size_reaches_request() {
    let view = line_view(6);
    let mut parallel = ParallelCoreset::new(4, 3);
    parallel.fit(&view, None);
    let points = parallel.points.as_ref().unwrap();
    assert_eq!(points.num_points(), 4);
    assert!(points.num_points() <= 4);
}
