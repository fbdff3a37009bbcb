//! The grid indexer: grid resolution from the target count, and the map
//! from a coordinate to a flattened cell index.
//!
//! The resolution `g` is the smallest integer with `g * g * g >= k`, so the
//! grid always offers at least as many cells as the requested count.  A
//! coordinate is normalized against the bounding box, scaled by `g`, floored
//! and clamped, so the index of any point lies in `[0, g * g * g)` — also
//! when every input point shares a coordinate on some axis, where the
//! denominator of the normalization still is at least one.

use vstd::prelude::*;
use crate::bounds::BoundingBox;
use crate::point::Point;

verus! {

/// Largest accepted target count: an output of this many points would
/// already exceed any real allocation, and keeping the count below it lets
/// every cell index fit in a `u64`.
pub const TARGET_LIMIT: u64 = 0x1000_0000_0000_0000;

/// Largest grid resolution that `TARGET_LIMIT` can demand: its cube is
/// `TARGET_LIMIT` itself.
pub const GRID_LIMIT: u64 = 0x10_0000;

/// `g` is the grid resolution for target `k`: the smallest positive integer
/// whose cube reaches `k`.
pub open spec fn is_grid_size(k: int, g: int) -> bool {
    &&& 1 <= g
    &&& k <= g * g * g
    &&& (g - 1) * (g - 1) * (g - 1) < k
}

/// The grid resolution for target `k`, as a value: the one integer that
/// `is_grid_size` admits.
pub open spec fn grid_size_of(k: int) -> int {
    choose|g: int| is_grid_size(k, g)
}

/// At most one resolution fits a target: two grid sizes for the same `k`
/// are equal.
pub proof fn lemma_grid_size_unique(k: int, g1: int, g2: int)
    requires
        is_grid_size(k, g1),
        is_grid_size(k, g2),
    ensures
        g1 == g2,
{
    if g1 < g2 {
        assert(g1 * g1 * g1 <= (g2 - 1) * (g2 - 1) * (g2 - 1)) by (nonlinear_arith)
            requires
                1 <= g1 <= g2 - 1,
        ;
    }
    if g2 < g1 {
        assert(g2 * g2 * g2 <= (g1 - 1) * (g1 - 1) * (g1 - 1)) by (nonlinear_arith)
            requires
                1 <= g2 <= g1 - 1,
        ;
    }
}

/// The cell of a coordinate `v` on one axis with range `[lo, hi]`:
/// normalize, scale by the resolution `g`, floor, clamp into `[0, g)`.
pub open spec fn axis_cell(v: int, lo: int, hi: int, g: int) -> int {
    if v < lo {
        0
    } else {
        let q = (v - lo) * g / (hi - lo + 1);
        if q >= g {
            g - 1
        } else {
            q
        }
    }
}

/// The flattened cell index of a point: `cx + cy*g + cz*g*g`.
pub open spec fn cell_of(bb: BoundingBox, g: int, p: Point) -> int {
    axis_cell(p.x as int, bb.min_x as int, bb.max_x as int, g) + axis_cell(
        p.y as int,
        bb.min_y as int,
        bb.max_y as int,
        g,
    ) * g + axis_cell(p.z as int, bb.min_z as int, bb.max_z as int, g) * g * g
}

/// Each axis cell lies in `[0, g)`.
pub proof fn lemma_axis_cell_in_range(v: int, lo: int, hi: int, g: int)
    requires
        lo <= hi,
        1 <= g,
    ensures
        0 <= axis_cell(v, lo, hi, g) < g,
{
    if v >= lo {
        let q = (v - lo) * g / (hi - lo + 1);
        assert(0 <= (v - lo) * g) by (nonlinear_arith)
            requires
                v >= lo,
                g >= 1,
        ;
        assert(q >= 0) by (nonlinear_arith)
            requires
                (v - lo) * g >= 0,
                hi - lo + 1 >= 1,
                q == (v - lo) * g / (hi - lo + 1),
        ;
    }
}

/// The flattened index of any point lies in `[0, g * g * g)`, whatever the
/// point and the well-formed box.
pub proof fn lemma_cell_in_range(bb: BoundingBox, g: int, p: Point)
    requires
        bb.wf(),
        1 <= g,
    ensures
        0 <= cell_of(bb, g, p) < g * g * g,
{
    lemma_axis_cell_in_range(p.x as int, bb.min_x as int, bb.max_x as int, g);
    lemma_axis_cell_in_range(p.y as int, bb.min_y as int, bb.max_y as int, g);
    lemma_axis_cell_in_range(p.z as int, bb.min_z as int, bb.max_z as int, g);
    let cx = axis_cell(p.x as int, bb.min_x as int, bb.max_x as int, g);
    let cy = axis_cell(p.y as int, bb.min_y as int, bb.max_y as int, g);
    let cz = axis_cell(p.z as int, bb.min_z as int, bb.max_z as int, g);
    assert(0 <= cx + cy * g + cz * g * g < g * g * g) by (nonlinear_arith)
        requires
            0 <= cx < g,
            0 <= cy < g,
            0 <= cz < g,
    ;
}

/// Derives the grid resolution from the target count: the smallest `g`
/// with `g * g * g >= clusters`.
pub fn grid_size_for(clusters: usize) -> (g: u64)
    requires
        1 <= clusters,
        clusters as u64 <= TARGET_LIMIT,
    ensures
        is_grid_size(clusters as int, g as int),
        g as int == grid_size_of(clusters as int),
        1 <= g <= GRID_LIMIT,
{
    let k = clusters as u64;
    let mut g: u64 = 1;
    proof {
        assert((GRID_LIMIT * GRID_LIMIT) * GRID_LIMIT == TARGET_LIMIT);
    }
    while cube(g) < k
        invariant
            1 <= g <= GRID_LIMIT,
            (g - 1) * (g - 1) * (g - 1) < k,
            k <= TARGET_LIMIT,
            k == clusters as u64,
        decreases GRID_LIMIT - g,
    {
        proof {
            assert(g < GRID_LIMIT) by (nonlinear_arith)
                requires
                    g * g * g < k,
                    k <= (GRID_LIMIT * GRID_LIMIT) * GRID_LIMIT,
                    1 <= g,
                    1 <= GRID_LIMIT,
            ;
        }
        g = g + 1;
    }
    proof {
        assert(is_grid_size(clusters as int, grid_size_of(clusters as int))) by {
            assert(is_grid_size(clusters as int, g as int));
        }
        lemma_grid_size_unique(clusters as int, g as int, grid_size_of(clusters as int));
    }
    g
}

/// The cube of a grid resolution, which `GRID_LIMIT` keeps inside `u64`.
pub fn cube(g: u64) -> (r: u64)
    requires
        g <= GRID_LIMIT,
    ensures
        r as int == (g as int) * (g as int) * (g as int),
{
    proof {
        assert((g as int) * (g as int) <= (GRID_LIMIT as int) * (GRID_LIMIT as int))
            by (nonlinear_arith)
            requires
                g <= GRID_LIMIT,
        ;
        assert(((g as int) * (g as int)) * (g as int) <= ((GRID_LIMIT as int) * (
        GRID_LIMIT as int)) * (GRID_LIMIT as int)) by (nonlinear_arith)
            requires
                g <= GRID_LIMIT,
        ;
        assert(((GRID_LIMIT as int) * (GRID_LIMIT as int)) * (GRID_LIMIT as int) == TARGET_LIMIT);
    }
    g * g * g
}

/// The cell of one coordinate, computed without overflow in 128-bit
/// intermediates.
fn axis_index(v: i64, lo: i64, hi: i64, g: u64) -> (a: u64)
    requires
        lo <= hi,
        1 <= g <= GRID_LIMIT,
    ensures
        a as int == axis_cell(v as int, lo as int, hi as int, g as int),
        a < g,
{
    proof {
        lemma_axis_cell_in_range(v as int, lo as int, hi as int, g as int);
    }
    if v < lo {
        0
    } else {
        let diff: u128 = (v as i128 - lo as i128) as u128;
        let den: u128 = (hi as i128 - lo as i128 + 1) as u128;
        proof {
            assert((diff as int) * (g as int) < 0x1_0000_0000_0000_0000_0000_0000)
                by (nonlinear_arith)
                requires
                    diff as int <= 0xffff_ffff_ffff_ffff,
                    g <= GRID_LIMIT,
            ;
        }
        let q: u128 = diff * (g as u128) / den;
        if q >= g as u128 {
            g - 1
        } else {
            q as u64
        }
    }
}

/// Maps a point to its flattened grid cell.  Identical coordinates under
/// the same box and resolution always give the identical index, and the
/// index always lies below `g * g * g`.
pub fn cell_index(bb: &BoundingBox, g: u64, p: &Point) -> (c: u64)
    requires
        bb.wf(),
        1 <= g <= GRID_LIMIT,
    ensures
        c as int == cell_of(*bb, g as int, *p),
        (c as int) < (g as int) * (g as int) * (g as int),
{
    proof {
        lemma_cell_in_range(*bb, g as int, *p);
    }
    let cx = axis_index(p.x, bb.min_x, bb.max_x, g);
    let cy = axis_index(p.y, bb.min_y, bb.max_y, g);
    let cz = axis_index(p.z, bb.min_z, bb.max_z, g);
    proof {
        assert((g as int) * (g as int) <= (GRID_LIMIT as int) * (GRID_LIMIT as int))
            by (nonlinear_arith)
            requires
                g <= GRID_LIMIT,
        ;
        assert((cy as int) * (g as int) < (GRID_LIMIT as int) * (GRID_LIMIT as int))
            by (nonlinear_arith)
            requires
                cy < g,
                g <= GRID_LIMIT,
        ;
        assert((cz as int) * ((g as int) * (g as int)) == ((cz as int) * (g as int)) * (g as int))
            by (nonlinear_arith);
        assert((cz as int) * ((g as int) * (g as int)) <= ((GRID_LIMIT as int) * (
        GRID_LIMIT as int)) * (GRID_LIMIT as int)) by (nonlinear_arith)
            requires
                0 <= cz < g,
                g <= GRID_LIMIT,
        ;
        assert(((GRID_LIMIT as int) * (GRID_LIMIT as int)) * (GRID_LIMIT as int)
            == TARGET_LIMIT);
    }
    let gg: u64 = g * g;
    let ty: u64 = cy * g;
    let tz: u64 = cz * gg;
    cx + ty + tz
}

} // verus!
