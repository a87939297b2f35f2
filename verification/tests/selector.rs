use libcoral::gmm::greedy_minimum_maximum;
use libcoral::metricdata::MetricView;

/// Distance matrix where d(i, j) = |i - j| * 10: symmetric, zero diagonal.
fn line_view(n: usize) -> MetricView {
    let mut d: Vec<u64> = Vec::new();
    for i in 0..n {
        for j in 0..n {
            let diff = if i >= j { i - j } else { j - i };
            d.push((diff as u64) * 10);
        }
    }
    MetricView::new(n, 1, d)
}

/// Encode a non-negative f32 distance as an order-preserving u64.
fn enc(x: f32) -> u64 {
    x.to_bits() as u64
}

/// Angular distances of the four axis points (1,0), (0,1), (-1,0), (0,-1).
fn axis_points_view() -> MetricView {
    let pts: [[f32; 2]; 4] = [[1.0, 0.0], [0.0, 1.0], [-1.0, 0.0], [0.0, -1.0]];
    let mut d: Vec<u64> = vec![0; 16];
    for i in 0..4 {
        for j in i..4 {
            let dot = pts[i][0] * pts[j][0] + pts[i][1] * pts[j][1];
            let ni = (pts[i][0] * pts[i][0] + pts[i][1] * pts[i][1]).sqrt();
            let nj = (pts[j][0] * pts[j][0] + pts[j][1] * pts[j][1]).sqrt();
            let dist = 1.0 - dot / (ni * nj);
            let e = enc(dist);
            d[i * 4 + j] = e;
            d[j * 4 + i] = e;
        }
    }
    MetricView::new(4, 2, d)
}

#[test]
fn selector_returns_k_distinct_in_range_indices() {
    let view = line_view(5);
    for k in 1..=5 {
        let (sol, _) = greedy_minimum_maximum(&view, k);
        assert_eq!(sol.len(), k);
        for &i in sol.iter() {
            assert!(i < 5);
        }
        for a in 0..sol.len() {
            for b in 0..a {
                assert_ne!(sol[a], sol[b]);
            }
        }
    }
}

#[test]
fn selector_seeds_with_index_zero() {
    let view = line_view(5);
    for k in 1..=5 {
        let (sol, _) = greedy_minimum_maximum(&view, k);
        assert_eq!(sol[0], 0);
    }
}

#[test]
fn selector_prefix_property_and_objective_non_increasing() {
    let view = line_view(5);
    let mut prev_sol: Vec<usize> = Vec::new();
    let mut prev_obj = u64::MAX;
    for k in 1..=5 {
        let (sol, obj) = greedy_minimum_maximum(&view, k);
        assert_eq!(&sol[..k - 1], &prev_sol[..]);
        assert!(obj <= prev_obj);
        prev_sol = sol;
        prev_obj = obj;
    }
}

#[test]
fn selector_exact_order_on_line_data() {
    let view = line_view(5);
    let (sol, obj) = greedy_minimum_maximum(&view, 5);
    // Seed 0, then the farthest point, then the middle, then ties broken by
    // smallest index.
    assert_eq!(sol, vec![0, 4, 2, 1, 3]);
    assert_eq!(obj, 10);
    let (_, obj2) = greedy_minimum_maximum(&view, 2);
    assert_eq!(obj2, 40);
    let (_, obj3) = greedy_minimum_maximum(&view, 3);
    assert_eq!(obj3, 20);
}

#[test]
fn selector_single_point_objective_is_no_pair_value() {
    let view = line_view(3);
    let (sol, obj) = greedy_minimum_maximum(&view, 1);
    assert_eq!(sol, vec![0]);
    assert_eq!(obj, u64::MAX);
}

#[test]
fn selector_deterministic_across_runs() {
    let view = line_view(5);
    let first = greedy_minimum_maximum(&view, 4);
    for _ in 0..3 {
        let again = greedy_minimum_maximum(&view, 4);
        assert_eq!(first, again);
    }
}

#[test]
fn selector_axis_points_scenario() {
    // Points (1,0), (0,1), (-1,0), (0,-1) under angular distance, k = 2:
    // frontier distances after seeding are [-, 1.0, 2.0, 1.0], so the
    // selector picks index 2 with achieved objective 2.0.
    let view = axis_points_view();
    let (sol, obj) = greedy_minimum_maximum(&view, 2);
    assert_eq!(sol, vec![0, 2]);
    assert_eq!(obj, enc(2.0));
}

#[test]
fn metric_view_accessors_and_all_distances() {
    let view = line_view(4);
    assert_eq!(view.num_points(), 4);
    assert_eq!(view.dimensions(), 1);
    assert_eq!(view.distance(1, 3), 20);
    assert_eq!(view.distance(3, 1), 20);
    let mut buf: Vec<u64> = vec![0; 4];
    view.all_distances(2, &mut buf);
    assert_eq!(buf, vec![20, 10, 0, 10]);
}

#[test]
fn metric_view_subset_keeps_order_and_duplicates() {
    let view = line_view(5);
    let sub = view.subset(&vec![2, 0, 2]);
    assert_eq!(sub.num_points(), 3);
    assert_eq!(sub.dimensions(), 1);
    // Rows are (2, 0, 2); distances carried over from the parent.
    assert_eq!(sub.d, vec![0, 20, 0, 20, 0, 20, 0, 20, 0]);
}

#[test]
fn metric_view_chunking_sizes() {
    let view = line_view(5);
    assert_eq!(view.nchunks_size(2), 3);
    assert_eq!(view.nchunks_size(7), 1);
    let chunks = view.nchunks(2);
    assert_eq!(chunks.len(), 2);
    assert_eq!(chunks[0].num_points(), 3);
    assert_eq!(chunks[1].num_points(), 2);
    // Chunk 1 holds rows 3 and 4 of the parent: their distance is 10.
    assert_eq!(chunks[1].d, vec![0, 10, 10, 0]);
    // More chunks than points: trailing chunks are empty, not an error.
    let many = view.nchunks(7);
    assert_eq!(many.len(), 7);
    let sizes: Vec<usize> = many.iter().map(|c| c.num_points()).collect();
    assert_eq!(sizes, vec![1, 1, 1, 1, 1, 0, 0]);
}

#[test]
fn metric_view_chunking_of_empty_set() {
    let view = MetricView::new(0, 3, Vec::new());
    assert_eq!(view.nchunks_size(3), 0);
    let chunks = view.nchunks(3);
    assert_eq!(chunks.len(), 3);
    assert!(chunks.iter().all(|c| c.num_points() == 0));
}
