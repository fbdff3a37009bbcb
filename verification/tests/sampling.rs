use mesh_reducer::bounds::compute_bounds;
use mesh_reducer::buckets::{bucketize, merge_buckets, Bucket};
use mesh_reducer::grid::grid_size_for;
use mesh_reducer::point::{Point, ReduceError};
use mesh_reducer::sampling::{
    adjust_count, fast_grid_sampling, reduce_loaded_mesh, reduce_point_set, sample_cells,
    sort_targets_descending,
};

fn pt(x: i64, y: i64, z: i64) -> Point {
    Point::new(x, y, z)
}

fn as_triples(points: &[Point]) -> Vec<(i64, i64, i64)> {
    points.iter().map(|p| (p.x, p.y, p.z)).collect()
}

fn sorted_triples(points: &[Point]) -> Vec<(i64, i64, i64)> {
    let mut v = as_triples(points);
    v.sort();
    v
}

fn contains_point(points: &[Point], p: &Point) -> bool {
    points.iter().any(|q| q == p)
}

/// A small deterministic generator for spread-out test coordinates.
fn pseudo_uniform_points(n: usize, side: i64) -> Vec<Point> {
    let mut state: u64 = 0x2545_f491_4f6c_dd1d;
    let mut next = move || {
        state = state.wrapping_mul(6364136223846793005).wrapping_add(1442695040888963407);
        ((state >> 33) as i64).rem_euclid(side)
    };
    (0..n).map(|_| pt(next(), next(), next())).collect()
}

#[test]
fn eight_corners_k8_returns_all_corners() {
    // Scenario: the 8 corners of a unit cube with k = 8.  The grid is
    // 2 x 2 x 2, every corner occupies its own cell, and the output is a
    // permutation of all 8 corners.
    let corners = vec![
        pt(0, 0, 0),
        pt(1, 0, 0),
        pt(0, 1, 0),
        pt(1, 1, 0),
        pt(0, 0, 1),
        pt(1, 0, 1),
        pt(0, 1, 1),
        pt(1, 1, 1),
    ];
    assert_eq!(grid_size_for(8), 2);
    let out = fast_grid_sampling(corners.clone(), 8);
    assert_eq!(out.len(), 8);
    assert_eq!(sorted_triples(&out), sorted_triples(&corners));
}

#[test]
fn eight_corners_occupy_eight_distinct_cells() {
    let corners = vec![
        pt(0, 0, 0),
        pt(1, 0, 0),
        pt(0, 1, 0),
        pt(1, 1, 0),
        pt(0, 0, 1),
        pt(1, 0, 1),
        pt(0, 1, 1),
        pt(1, 1, 1),
    ];
    let bb = compute_bounds(&corners).unwrap();
    let g = grid_size_for(8);
    let buckets = bucketize(&corners, &bb, g);
    assert_eq!(buckets.len(), 8);
    let mut cells: Vec<u64> = buckets.iter().map(|b| b.cell).collect();
    cells.sort();
    assert_eq!(cells, vec![0, 1, 2, 3, 4, 5, 6, 7]);
    for b in &buckets {
        assert_eq!(b.members.len(), 1);
    }
}

#[test]
fn target_below_occupied_cells_gives_distinct_points() {
    // With 8 occupied cells and k = 4, every output point comes from a
    // different cell, so the four corners returned are pairwise distinct.
    let corners = vec![
        pt(0, 0, 0),
        pt(1, 0, 0),
        pt(0, 1, 0),
        pt(1, 1, 0),
        pt(0, 0, 1),
        pt(1, 0, 1),
        pt(0, 1, 1),
        pt(1, 1, 1),
    ];
    let out = fast_grid_sampling(corners.clone(), 4);
    assert_eq!(out.len(), 4);
    let mut triples = sorted_triples(&out);
    triples.dedup();
    assert_eq!(triples.len(), 4);
    for p in &out {
        assert!(contains_point(&corners, p));
    }
}

#[test]
fn thousand_points_k10() {
    // Scenario: 1000 spread-out points in a cube with k = 10: a 3 x 3 x 3
    // grid, exactly 10 output points, each of them an input point.
    let points = pseudo_uniform_points(1000, 1000);
    assert_eq!(grid_size_for(10), 3);
    let out = fast_grid_sampling(points.clone(), 10);
    assert_eq!(out.len(), 10);
    for p in &out {
        assert!(contains_point(&points, p));
    }
}

#[test]
fn empty_set_is_invalid_parameter() {
    // Scenario: an empty point set with k = 5 fails fast with the
    // invalid-parameter error instead of hanging.
    let points: Vec<Point> = Vec::new();
    assert_eq!(reduce_point_set(points, 5), Err(ReduceError::InvalidParameter));
}

#[test]
fn zero_target_is_invalid_parameter() {
    let points = vec![pt(1, 2, 3)];
    assert_eq!(reduce_point_set(points, 0), Err(ReduceError::InvalidParameter));
}

#[test]
fn more_targets_than_points_pads_to_exact_count() {
    // k > n: the output still reaches exactly k through repeated padding
    // draws from the input, and never errors.
    let points = vec![pt(0, 0, 0), pt(10, 0, 0), pt(0, 10, 0)];
    let out = fast_grid_sampling(points.clone(), 10);
    assert_eq!(out.len(), 10);
    for p in &out {
        assert!(contains_point(&points, p));
    }
}

#[test]
fn output_size_matches_target_for_many_targets() {
    let points = pseudo_uniform_points(200, 50);
    for k in [1usize, 2, 3, 7, 50, 199, 200, 201, 500] {
        let out = fast_grid_sampling(points.clone(), k);
        assert_eq!(out.len(), k);
        for p in &out {
            assert!(contains_point(&points, p));
        }
    }
}

#[test]
fn identical_coordinate_on_one_axis_samples_fine() {
    // All points share their z coordinate; the pipeline must not divide by
    // zero and still yields valid output.
    let points: Vec<Point> = (0..100).map(|i| pt(i, 2 * i, 7)).collect();
    let out = fast_grid_sampling(points.clone(), 5);
    assert_eq!(out.len(), 5);
    for p in &out {
        assert!(contains_point(&points, p));
    }
}

#[test]
fn all_points_identical_samples_fine() {
    let points: Vec<Point> = (0..10).map(|_| pt(3, 3, 3)).collect();
    let out = fast_grid_sampling(points.clone(), 4);
    assert_eq!(out.len(), 4);
    for p in &out {
        assert_eq!((p.x, p.y, p.z), (3, 3, 3));
    }
}

#[test]
fn sample_cells_takes_one_per_bucket() {
    let points = pseudo_uniform_points(300, 100);
    let bb = compute_bounds(&points).unwrap();
    let g = grid_size_for(27);
    let buckets = bucketize(&points, &bb, g);
    let total: usize = buckets.iter().map(|b| b.members.len()).sum();
    assert_eq!(total, points.len());
    let picks = sample_cells(&buckets);
    assert_eq!(picks.len(), buckets.len());
    for (pick, bucket) in picks.iter().zip(buckets.iter()) {
        assert!(contains_point(&bucket.members, pick));
    }
    let mut cells: Vec<u64> = buckets.iter().map(|b| b.cell).collect();
    cells.sort();
    cells.dedup();
    assert_eq!(cells.len(), buckets.len());
}

#[test]
fn merge_buckets_is_order_independent_on_membership() {
    let points = pseudo_uniform_points(120, 60);
    let bb = compute_bounds(&points).unwrap();
    let g = grid_size_for(8);
    let whole = bucketize(&points, &bb, g);
    let left: Vec<Point> = points[..50].to_vec();
    let right: Vec<Point> = points[50..].to_vec();
    let lb = bucketize(&left, &bb, g);
    let rb = bucketize(&right, &bb, g);
    let lb2 = bucketize(&left, &bb, g);
    let rb2 = bucketize(&right, &bb, g);
    let merged = merge_buckets(lb, rb, &bb, g);
    let merged_rev = merge_buckets(rb2, lb2, &bb, g);

    // Per cell, both merge orders and the one-pass bucketing agree on the
    // members, counted with multiplicity.
    let cell_contents = |buckets: &[Bucket]| {
        let mut v: Vec<(u64, Vec<(i64, i64, i64)>)> = buckets
            .iter()
            .map(|b| (b.cell, sorted_triples(&b.members)))
            .collect();
        v.sort();
        v
    };
    assert_eq!(cell_contents(&merged), cell_contents(&whole));
    assert_eq!(cell_contents(&merged_rev), cell_contents(&whole));
}

#[test]
fn adjust_count_truncates_to_subset() {
    let points = pseudo_uniform_points(50, 1000);
    let selected = points.clone();
    let out = adjust_count(selected, &points, 20);
    assert_eq!(out.len(), 20);
    // The truncated selection reintroduces nothing: counted with
    // multiplicity, it stays inside the original selection.
    let mut left = sorted_triples(&out);
    let mut right = sorted_triples(&points);
    left.retain(|t| {
        if let Ok(pos) = right.binary_search(t) {
            right.remove(pos);
            false
        } else {
            true
        }
    });
    assert!(left.is_empty());
}

#[test]
fn adjust_count_keeps_exact_match_unchanged() {
    let points = vec![pt(1, 1, 1), pt(2, 2, 2), pt(3, 3, 3)];
    let out = adjust_count(points.clone(), &points, 3);
    assert_eq!(as_triples(&out), as_triples(&points));
}

#[test]
fn adjust_count_pads_after_existing_prefix() {
    let points = vec![pt(1, 1, 1), pt(2, 2, 2)];
    let selected = vec![pt(2, 2, 2)];
    let out = adjust_count(selected, &points, 6);
    assert_eq!(out.len(), 6);
    assert_eq!(as_triples(&out[..1]), vec![(2, 2, 2)]);
    for p in &out {
        assert!(contains_point(&points, p));
    }
}

#[test]
fn sort_targets_descending_exact() {
    let targets = vec![5usize, 9, 3, 7, 9, 1];
    let sorted = sort_targets_descending(&targets);
    assert_eq!(sorted, vec![9, 9, 7, 5, 3, 1]);
}

#[test]
fn reduce_loaded_mesh_keeps_name() {
    let points = pseudo_uniform_points(40, 30);
    let mesh = reduce_loaded_mesh("bunny".to_string(), points.clone(), 6).unwrap();
    assert_eq!(mesh.name, "bunny");
    assert_eq!(mesh.points.len(), 6);
    for p in &mesh.points {
        assert!(contains_point(&points, p));
    }
}

#[test]
fn reduce_loaded_mesh_rejects_empty() {
    let err = reduce_loaded_mesh("empty".to_string(), Vec::new(), 4).unwrap_err();
    assert_eq!(err, ReduceError::InvalidParameter);
}
