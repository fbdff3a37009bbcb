use mesh_reducer::bounds::{compute_bounds, merge_bounds, point_bounds, BoundingBox};
use mesh_reducer::grid::{cell_index, cube, grid_size_for};
use mesh_reducer::point::Point;

fn pt(x: i64, y: i64, z: i64) -> Point {
    Point::new(x, y, z)
}

#[test]
fn grid_size_exact_values() {
    assert_eq!(grid_size_for(1), 1);
    assert_eq!(grid_size_for(2), 2);
    assert_eq!(grid_size_for(8), 2);
    assert_eq!(grid_size_for(9), 3);
    assert_eq!(grid_size_for(10), 3);
    assert_eq!(grid_size_for(27), 3);
    assert_eq!(grid_size_for(28), 4);
    assert_eq!(grid_size_for(1000), 10);
    assert_eq!(grid_size_for(1001), 11);
}

#[test]
fn cube_exact_values() {
    assert_eq!(cube(0), 0);
    assert_eq!(cube(3), 27);
    assert_eq!(cube(10), 1000);
}

#[test]
fn bounds_of_empty_set_is_none() {
    let points: Vec<Point> = Vec::new();
    assert!(compute_bounds(&points).is_none());
}

#[test]
fn bounds_exact_values() {
    let points = vec![pt(3, -2, 7), pt(-5, 4, 7), pt(0, 0, -1)];
    let bb = compute_bounds(&points).unwrap();
    assert_eq!(bb.min_x, -5);
    assert_eq!(bb.max_x, 3);
    assert_eq!(bb.min_y, -2);
    assert_eq!(bb.max_y, 4);
    assert_eq!(bb.min_z, -1);
    assert_eq!(bb.max_z, 7);
}

#[test]
fn bounds_split_and_merge_matches_whole() {
    // Any partitioning plus merge gives the same box as one pass over the
    // whole input, and so does any permutation of the input.
    let points = vec![pt(10, 0, 0), pt(-3, 8, 1), pt(4, -9, 2), pt(0, 1, -6), pt(2, 2, 2)];
    let whole = compute_bounds(&points).unwrap();
    for split in 1..points.len() {
        let left: Vec<Point> = points[..split].to_vec();
        let right: Vec<Point> = points[split..].to_vec();
        let lb = compute_bounds(&left).unwrap();
        let rb = compute_bounds(&right).unwrap();
        assert_eq!(merge_bounds(&lb, &rb), whole);
    }
    let mut reversed = points.clone();
    reversed.reverse();
    assert_eq!(compute_bounds(&reversed).unwrap(), whole);
}

#[test]
fn point_bounds_is_degenerate_box() {
    let bb = point_bounds(&pt(1, 2, 3));
    assert_eq!(
        bb,
        BoundingBox { min_x: 1, max_x: 1, min_y: 2, max_y: 2, min_z: 3, max_z: 3 }
    );
}

#[test]
fn cell_index_within_grid() {
    let bb = BoundingBox { min_x: 0, max_x: 9, min_y: 0, max_y: 9, min_z: 0, max_z: 9 };
    let g = 3u64;
    for x in 0..10 {
        for y in 0..10 {
            for z in 0..10 {
                let c = cell_index(&bb, g, &pt(x, y, z));
                assert!(c < 27);
            }
        }
    }
    // Extremes land in the extreme cells.
    assert_eq!(cell_index(&bb, g, &pt(0, 0, 0)), 0);
    assert_eq!(cell_index(&bb, g, &pt(9, 9, 9)), 26);
    // Exact flattening: per axis floor(v * 3 / 10), then cx + cy*3 + cz*9.
    assert_eq!(cell_index(&bb, g, &pt(4, 4, 4)), 1 + 1 * 3 + 1 * 9);
    assert_eq!(cell_index(&bb, g, &pt(9, 0, 3)), 2 + 0 * 3 + 0 * 9);
    assert_eq!(cell_index(&bb, g, &pt(0, 7, 5)), 0 + 2 * 3 + 1 * 9);
}

#[test]
fn cell_index_flat_axis_stays_valid() {
    // Every point shares its x coordinate: the x interval is a single
    // value, and indexing still works and stays in range.
    let bb = BoundingBox { min_x: 5, max_x: 5, min_y: 0, max_y: 9, min_z: 0, max_z: 9 };
    let g = 2u64;
    for y in 0..10 {
        for z in 0..10 {
            let c = cell_index(&bb, g, &pt(5, y, z));
            assert!(c < 8);
        }
    }
    // A fully degenerate box: all points identical.
    let one = BoundingBox { min_x: 4, max_x: 4, min_y: 4, max_y: 4, min_z: 4, max_z: 4 };
    assert_eq!(cell_index(&one, 3, &pt(4, 4, 4)), 0);
}

#[test]
fn cell_index_deterministic() {
    let bb = BoundingBox { min_x: -10, max_x: 10, min_y: -10, max_y: 10, min_z: -10, max_z: 10 };
    let p = pt(3, -7, 9);
    let first = cell_index(&bb, 4, &p);
    for _ in 0..10 {
        assert_eq!(cell_index(&bb, 4, &p), first);
    }
}
