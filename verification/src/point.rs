//! The value types the sampling pipeline works on: points, named point sets,
//! the error taxonomy, and the mesh-format tags.

use vstd::prelude::*;

verus! {

/// One 3-D point with fixed-point integer coordinates.
#[derive(Clone, Copy, PartialEq, Eq, Structural, Debug)]
pub struct Point {
    pub x: i64,
    pub y: i64,
    pub z: i64,
}

impl Point {
    /// Builds a point from its three coordinates.
    pub fn new(x: i64, y: i64, z: i64) -> (p: Point)
        ensures
            p == (Point { x, y, z }),
    {
        Point { x, y, z }
    }
}

/// A named, reduced point set: the base name of the source mesh together
/// with the points that survived sampling.
#[derive(Clone, Debug)]
pub struct MeshObject {
    pub name: String,
    pub points: Vec<Point>,
}

impl MeshObject {
    /// Pairs a name with a point sequence.
    pub fn new(name: String, points: Vec<Point>) -> (m: MeshObject)
        ensures
            m.name == name,
            m.points == points,
    {
        MeshObject { name, points }
    }
}

/// Why a reduction request was rejected.
#[derive(Clone, Copy, PartialEq, Eq, Structural, Debug)]
pub enum ReduceError {
    /// The source file's extension names no supported mesh format.
    UnsupportedFormat,
    /// The mesh file could not be parsed or read.
    LoadFailure,
    /// The target count is zero or the point set is empty.
    InvalidParameter,
}

} // verus!
