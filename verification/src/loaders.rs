//! Tag types for the per-format mesh loaders.  Loading itself is file
//! work that lives with the caller; each tag names one format's loader and
//! says which classified format it answers for.

use vstd::prelude::*;
use crate::format::MeshFormat;

verus! {

/// The loader for STL meshes.
pub struct StlLoader;

impl StlLoader {
    /// The format this loader reads.
    pub fn format() -> (f: MeshFormat)
        ensures
            f == MeshFormat::Stl,
    {
        MeshFormat::Stl
    }
}

/// The loader for Wavefront OBJ meshes.
pub struct ObjLoader;

impl ObjLoader {
    /// The format this loader reads.
    pub fn format() -> (f: MeshFormat)
        ensures
            f == MeshFormat::Obj,
    {
        MeshFormat::Obj
    }
}

/// The loader for PLY meshes.
pub struct PlyLoader;

impl PlyLoader {
    /// The format this loader reads.
    pub fn format() -> (f: MeshFormat)
        ensures
            f == MeshFormat::Ply,
    {
        MeshFormat::Ply
    }
}

/// The loader slot for STEP meshes: the format is recognized nowhere yet,
/// so no extension classifies to it and loading it always fails.
pub struct StepLoader;

} // verus!
