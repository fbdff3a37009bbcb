use mesh_reducer::format::{classify_format, MeshFormat};
use mesh_reducer::loaders::{ObjLoader, PlyLoader, StlLoader};
use mesh_reducer::point::{MeshObject, Point, ReduceError};
use mesh_reducer::sampling::reduce_point_set_multi;

fn pt(x: i64, y: i64, z: i64) -> Point {
    Point::new(x, y, z)
}

fn spread_points(n: usize) -> Vec<Point> {
    (0..n as i64).map(|i| pt(i * 13 % 101, i * 31 % 97, i * 7 % 89)).collect()
}

fn contains_point(points: &[Point], p: &Point) -> bool {
    points.iter().any(|q| q == p)
}

#[test]
fn multi_reduces_once_per_target_in_descending_order() {
    let points = spread_points(100);
    let targets = vec![5usize, 20, 10];
    let results = reduce_point_set_multi(&points, &targets).unwrap();
    assert_eq!(results.len(), 3);
    let got: Vec<usize> = results.iter().map(|(t, _)| *t).collect();
    assert_eq!(got, vec![20, 10, 5]);
    for (t, reduced) in &results {
        assert_eq!(reduced.len(), *t);
        for p in reduced {
            assert!(contains_point(&points, p));
        }
    }
}

#[test]
fn multi_with_duplicate_targets() {
    let points = spread_points(30);
    let targets = vec![4usize, 4, 2];
    let results = reduce_point_set_multi(&points, &targets).unwrap();
    let got: Vec<usize> = results.iter().map(|(t, _)| *t).collect();
    assert_eq!(got, vec![4, 4, 2]);
    for (t, reduced) in &results {
        assert_eq!(reduced.len(), *t);
    }
}

#[test]
fn multi_rejects_empty_targets() {
    let points = spread_points(10);
    let targets: Vec<usize> = Vec::new();
    assert_eq!(reduce_point_set_multi(&points, &targets), Err(ReduceError::InvalidParameter));
}

#[test]
fn multi_rejects_empty_points() {
    let points: Vec<Point> = Vec::new();
    let targets = vec![3usize];
    assert_eq!(reduce_point_set_multi(&points, &targets), Err(ReduceError::InvalidParameter));
}

#[test]
fn multi_rejects_zero_target() {
    let points = spread_points(10);
    let targets = vec![3usize, 0, 2];
    assert_eq!(reduce_point_set_multi(&points, &targets), Err(ReduceError::InvalidParameter));
}

#[test]
fn classify_known_extensions() {
    assert_eq!(classify_format(&b"stl".to_vec()), Ok(MeshFormat::Stl));
    assert_eq!(classify_format(&b"STL".to_vec()), Ok(MeshFormat::Stl));
    assert_eq!(classify_format(&b"obj".to_vec()), Ok(MeshFormat::Obj));
    assert_eq!(classify_format(&b"Obj".to_vec()), Ok(MeshFormat::Obj));
    assert_eq!(classify_format(&b"ply".to_vec()), Ok(MeshFormat::Ply));
    assert_eq!(classify_format(&b"PLY".to_vec()), Ok(MeshFormat::Ply));
}

#[test]
fn classify_unknown_extension_is_unsupported() {
    assert_eq!(classify_format(&b"step".to_vec()), Err(ReduceError::UnsupportedFormat));
    assert_eq!(classify_format(&b"xyz".to_vec()), Err(ReduceError::UnsupportedFormat));
    assert_eq!(classify_format(&b"".to_vec()), Err(ReduceError::UnsupportedFormat));
    assert_eq!(classify_format(&b"stla".to_vec()), Err(ReduceError::UnsupportedFormat));
}

#[test]
fn loader_tags_name_their_formats() {
    assert_eq!(StlLoader::format(), MeshFormat::Stl);
    assert_eq!(ObjLoader::format(), MeshFormat::Obj);
    assert_eq!(PlyLoader::format(), MeshFormat::Ply);
}

#[test]
fn mesh_object_new_keeps_fields() {
    let points = vec![pt(1, 2, 3)];
    let mesh = MeshObject::new("cube".to_string(), points.clone());
    assert_eq!(mesh.name, "cube");
    assert_eq!(mesh.points.len(), 1);
    assert_eq!((mesh.points[0].x, mesh.points[0].y, mesh.points[0].z), (1, 2, 3));
}
