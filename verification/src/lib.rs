//! Spatial-grid stratified sampling for 3-D point clouds.
//!
//! The library reduces a point cloud to a caller-specified number of points
//! while preserving spatial coverage: it computes the bounding box of the
//! input, overlays a uniform grid with enough cells for the requested count,
//! buckets the points by cell, draws one representative per occupied cell,
//! and finally pads or truncates the selection to the exact target.
//!
//! Coordinates are fixed-point: each axis value is an `i64`, and callers that
//! start from fractional coordinates scale them to integers up front.

pub mod bounds;
pub mod buckets;
pub mod format;
pub mod grid;
pub mod loaders;
pub mod point;
mod rng;
pub mod sampling;
