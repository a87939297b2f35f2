use libcoral::diversity::{DiversityKind, DiversityMaximization};
use libcoral::metricdata::MetricView;

/// Distance matrix where d(i, j) = |i - j| * 10: symmetric, zero diagonal.
fn line_view(n: usize) -> MetricView {
    let mut d: Vec<u64> = Vec::new();
    for i in 0..n {
        for j in 0..n {
            let diff = if i >= j { i - j } else { j - i };
            d.push((diff as u64) * 10);
        }
    }
    MetricView::new(n, 1, d)
}

/// Encode a non-negative f32 distance as an order-preserving u64.
fn enc(x: f32) -> u64 {
    x.to_bits() as u64
}

/// Angular distances of the four axis points (1,0), (0,1), (-1,0), (0,-1).
fn axis_points_view() -> MetricView {
    let pts: [[f32; 2]; 4] = [[1.0, 0.0], [0.0, 1.0], [-1.0, 0.0], [0.0, -1.0]];
    let mut d: Vec<u64> = vec![0; 16];
    for i in 0..4 {
        for j in i..4 {
            let dot = pts[i][0] * pts[j][0] + pts[i][1] * pts[j][1];
            let ni = (pts[i][0] * pts[i][0] + pts[i][1] * pts[i][1]).sqrt();
            let nj = (pts[j][0] * pts[j][0] + pts[j][1] * pts[j][1]).sqrt();
            let dist = 1.0 - dot / (ni * nj);
            let e = enc(dist);
            d[i * 4 + j] = e;
            d[j * 4 + i] = e;
        }
    }
    MetricView::new(4, 2, d)
}

#[test]
fn configuration_builder_chains() {
    let config = DiversityMaximization::new(2, DiversityKind::RemoteEdge);
    assert_eq!(config.k, 2);
    assert_eq!(config.threads, 1);
    assert!(config.coreset_size.is_none());
    assert!(config.solution.is_none());
    let config = config.with_coreset(5).with_threads(3);
    assert_eq!(config.coreset_size, Some(5));
    assert_eq!(config.threads, 3);
    assert!(matches!(config.kind, DiversityKind::RemoteEdge));
}

#[test]
fn no_solution_before_fit() {
    let config = DiversityMaximization::new(2, DiversityKind::RemoteEdge);
    assert!(config.get_solution_indices().is_none());
}

#[test]
fn fit_direct_path_stores_greedy_solution() {
    let view = line_view(5);
    let mut config = DiversityMaximization::new(3, DiversityKind::RemoteEdge);
    config.fit(&view);
    let sol = config.get_solution_indices().unwrap();
    assert_eq!(sol, vec![0, 4, 2]);
}

#[test]
fn fit_overwrites_previous_solution() {
    let view = line_view(5);
    let mut config = DiversityMaximization::new(3, DiversityKind::RemoteEdge);
    config.fit(&view);
    let other = line_view(4);
    config.fit(&other);
    let sol = config.get_solution_indices().unwrap();
    assert_eq!(sol, vec![0, 3, 1]);
}

#[test]
fn fit_sequential_coreset_path_returns_coreset_local_indices() {
    let view = line_view(5);
    let mut config = DiversityMaximization::new(2, DiversityKind::RemoteEdge).with_coreset(3);
    config.fit(&view);
    // The coreset keeps rows 0, 4, 2 of the input; the selector then picks
    // coreset-local indices 0 and 1 (rows 0 and 4 of the original data).
    let sol = config.get_solution_indices().unwrap();
    assert_eq!(sol, vec![0, 1]);
}

#[test]
fn fit_parallel_coreset_path() {
    let view = line_view(5);
    let mut config = DiversityMaximization::new(2, DiversityKind::RemoteEdge)
        .with_coreset(3)
        .with_threads(2);
    config.fit(&view);
    let sol = config.get_solution_indices().unwrap();
    assert_eq!(sol, vec![0, 1]);
}

#[test]
fn fit_deterministic_across_runs() {
    let view = line_view(5);
    let mut first = DiversityMaximization::new(3, DiversityKind::RemoteEdge);
    first.fit(&view);
    let mut second = DiversityMaximization::new(3, DiversityKind::RemoteEdge);
    second.fit(&view);
    assert_eq!(first.get_solution_indices(), second.get_solution_indices());
}

#[test]
fn cost_of_two_point_set_is_their_distance() {
    let view = line_view(2);
    let mut config = DiversityMaximization::new(1, DiversityKind::RemoteEdge);
    assert_eq!(config.cost(&view), 10);
}

#[test]
fn cost_of_tiny_sets_is_no_pair_value() {
    let mut config = DiversityMaximization::new(1, DiversityKind::RemoteEdge);
    let empty = MetricView::new(0, 1, Vec::new());
    assert_eq!(config.cost(&empty), u64::MAX);
    let single = line_view(1);
    assert_eq!(config.cost(&single), u64::MAX);
}

#[test]
fn objective_equals_cost_of_selected_subset() {
    // The objective the selector reports is the minimum pairwise distance
    // of the selected set, as `cost` computes it on that subset.
    let view = line_view(5);
    for k in 2..=5 {
        let (sol, obj) = libcoral::gmm::greedy_minimum_maximum(&view, k);
        let sub = view.subset(&sol);
        let mut config = DiversityMaximization::new(k, DiversityKind::RemoteEdge);
        assert_eq!(config.cost(&sub), obj);
    }
}

#[test]
fn full_selection_objective_equals_dataset_cost() {
    // k == n is permitted: all indices are returned in selection order and
    // the objective is the dataset's full minimum pairwise distance.
    let view = line_view(5);
    let (sol, obj) = libcoral::gmm::greedy_minimum_maximum(&view, 5);
    assert_eq!(sol.len(), 5);
    let mut config = DiversityMaximization::new(5, DiversityKind::RemoteEdge);
    assert_eq!(config.cost(&view), obj);
}

#[test]
fn cost_is_independent_of_stored_solution() {
    // The axis-points scenario: fit with k = 2 achieves objective 2.0, yet
    // cost still reports the full set's minimum pairwise distance 1.0.
    let view = axis_points_view();
    let mut config = DiversityMaximization::new(2, DiversityKind::RemoteEdge);
    let before = config.cost(&view);
    config.fit(&view);
    let after = config.cost(&view);
    assert_eq!(before, enc(1.0));
    assert_eq!(after, enc(1.0));
    assert_eq!(config.get_solution_indices().unwrap(), vec![0, 2]);
}
