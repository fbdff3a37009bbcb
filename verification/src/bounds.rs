//! The bounds reducer: the axis-aligned bounding box of a point set.
//!
//! The box is a fold of an associative, commutative merge over the points,
//! so any partitioning of the input across workers and any merge order give
//! the same box; the lemmas at the end of this module state that.

use vstd::prelude::*;
use crate::point::Point;

verus! {

/// Axis-aligned bounding box: a minimum and a maximum per axis.
#[derive(Clone, Copy, PartialEq, Eq, Structural, Debug)]
pub struct BoundingBox {
    pub min_x: i64,
    pub max_x: i64,
    pub min_y: i64,
    pub max_y: i64,
    pub min_z: i64,
    pub max_z: i64,
}

impl BoundingBox {
    /// A box is well formed when no axis interval is empty.  Every box built
    /// from at least one point is.
    pub open spec fn wf(self) -> bool {
        self.min_x <= self.max_x && self.min_y <= self.max_y && self.min_z <= self.max_z
    }

    /// The point lies inside the box on every axis.
    pub open spec fn covers(self, p: Point) -> bool {
        &&& self.min_x <= p.x <= self.max_x
        &&& self.min_y <= p.y <= self.max_y
        &&& self.min_z <= p.z <= self.max_z
    }
}

/// The degenerate box around a single point.
pub open spec fn point_box(p: Point) -> BoundingBox {
    BoundingBox { min_x: p.x, max_x: p.x, min_y: p.y, max_y: p.y, min_z: p.z, max_z: p.z }
}

/// Per-axis minimum of the minima and maximum of the maxima.
pub open spec fn merge_box(a: BoundingBox, b: BoundingBox) -> BoundingBox {
    BoundingBox {
        min_x: if a.min_x <= b.min_x { a.min_x } else { b.min_x },
        max_x: if a.max_x >= b.max_x { a.max_x } else { b.max_x },
        min_y: if a.min_y <= b.min_y { a.min_y } else { b.min_y },
        max_y: if a.max_y >= b.max_y { a.max_y } else { b.max_y },
        min_z: if a.min_z <= b.min_z { a.min_z } else { b.min_z },
        max_z: if a.max_z >= b.max_z { a.max_z } else { b.max_z },
    }
}

/// Merge of optional boxes; `None`, the bounds of no points, is the
/// neutral element.
pub open spec fn merge_opt(a: Option<BoundingBox>, b: Option<BoundingBox>) -> Option<
    BoundingBox,
> {
    match (a, b) {
        (Option::None, _) => b,
        (_, Option::None) => a,
        (Option::Some(x), Option::Some(y)) => Option::Some(merge_box(x, y)),
    }
}

/// The bounding box of a point sequence, folded from the left; `None` for
/// the empty sequence.
pub open spec fn bounds_of(s: Seq<Point>) -> Option<BoundingBox>
    decreases s.len(),
{
    if s.len() == 0 {
        Option::None
    } else {
        merge_opt(bounds_of(s.drop_last()), Option::Some(point_box(s.last())))
    }
}

/// Builds the degenerate box around one point.
pub fn point_bounds(p: &Point) -> (r: BoundingBox)
    ensures
        r == point_box(*p),
{
    BoundingBox {
        min_x: p.x,
        max_x: p.x,
        min_y: p.y,
        max_y: p.y,
        min_z: p.z,
        max_z: p.z,
    }
}

/// Merges two boxes, taking the tighter bound on each side of each axis.
pub fn merge_bounds(a: &BoundingBox, b: &BoundingBox) -> (r: BoundingBox)
    ensures
        r == merge_box(*a, *b),
{
    BoundingBox {
        min_x: if a.min_x <= b.min_x { a.min_x } else { b.min_x },
        max_x: if a.max_x >= b.max_x { a.max_x } else { b.max_x },
        min_y: if a.min_y <= b.min_y { a.min_y } else { b.min_y },
        max_y: if a.max_y >= b.max_y { a.max_y } else { b.max_y },
        min_z: if a.min_z <= b.min_z { a.min_z } else { b.min_z },
        max_z: if a.max_z >= b.max_z { a.max_z } else { b.max_z },
    }
}

/// Computes the bounding box of a point set; `None` when the set is empty.
pub fn compute_bounds(points: &Vec<Point>) -> (r: Option<BoundingBox>)
    ensures
        r == bounds_of(points@),
{
    if points.len() == 0 {
        proof {
            assert(points@.len() == 0);
        }
        return Option::None;
    }
    let p0 = points[0];
    let mut bb = point_bounds(&p0);
    proof {
        assert(points@.take(1).len() == 1);
        assert(points@.take(1).drop_last() =~= Seq::<Point>::empty());
        assert(points@.take(1).last() == p0);
        assert(bounds_of(Seq::<Point>::empty()) == Option::<BoundingBox>::None);
    }
    let mut i: usize = 1;
    while i < points.len()
        invariant
            1 <= i <= points@.len(),
            Option::Some(bb) == bounds_of(points@.take(i as int)),
        decreases points@.len() - i,
    {
        let p = points[i];
        let pb = point_bounds(&p);
        bb = merge_bounds(&bb, &pb);
        proof {
            assert(points@.take(i + 1).drop_last() =~= points@.take(i as int));
            assert(points@.take(i + 1).last() == points@[i as int]);
        }
        i = i + 1;
    }
    proof {
        assert(points@.take(points@.len() as int) =~= points@);
    }
    Option::Some(bb)
}

/// The bounds of a non-empty point set exist and are well formed.
pub proof fn lemma_bounds_wf(s: Seq<Point>)
    requires
        s.len() > 0,
    ensures
        bounds_of(s) is Some,
        bounds_of(s)->Some_0.wf(),
    decreases s.len(),
{
    if s.len() > 1 {
        lemma_bounds_wf(s.drop_last());
    }
}

/// The folded box is exactly the componentwise minimum and maximum over
/// the points: it covers every point of the set, and each of its six sides
/// is attained by some point.
pub proof fn lemma_bounds_tight(s: Seq<Point>)
    requires
        s.len() > 0,
    ensures
        bounds_of(s) is Some,
        forall|i: int| 0 <= i < s.len() ==> bounds_of(s)->Some_0.covers(#[trigger] s[i]),
        exists|i: int| 0 <= i < s.len() && (#[trigger] s[i]).x == bounds_of(s)->Some_0.min_x,
        exists|i: int| 0 <= i < s.len() && (#[trigger] s[i]).x == bounds_of(s)->Some_0.max_x,
        exists|i: int| 0 <= i < s.len() && (#[trigger] s[i]).y == bounds_of(s)->Some_0.min_y,
        exists|i: int| 0 <= i < s.len() && (#[trigger] s[i]).y == bounds_of(s)->Some_0.max_y,
        exists|i: int| 0 <= i < s.len() && (#[trigger] s[i]).z == bounds_of(s)->Some_0.min_z,
        exists|i: int| 0 <= i < s.len() && (#[trigger] s[i]).z == bounds_of(s)->Some_0.max_z,
    decreases s.len(),
{
    let bb = bounds_of(s)->Some_0;
    let last = s.len() - 1;
    if s.len() == 1 {
        assert(s[0] == s.last());
        assert(s[0].x == bb.min_x && s[0].x == bb.max_x);
        assert(s[0].y == bb.min_y && s[0].y == bb.max_y);
        assert(s[0].z == bb.min_z && s[0].z == bb.max_z);
    } else {
        lemma_bounds_tight(s.drop_last());
        let t = s.drop_last();
        let bp = bounds_of(t)->Some_0;
        assert(forall|i: int| 0 <= i < t.len() ==> t[i] == s[i]);
        assert(s[last] == s.last());
        assert(forall|i: int| 0 <= i < s.len() ==> bb.covers(#[trigger] s[i]));
        if s.last().x <= bp.min_x {
            assert(s[last].x == bb.min_x);
        } else {
            let w = choose|w: int| 0 <= w < t.len() && t[w].x == bp.min_x;
            assert(s[w].x == bb.min_x);
        }
        if s.last().x >= bp.max_x {
            assert(s[last].x == bb.max_x);
        } else {
            let w = choose|w: int| 0 <= w < t.len() && t[w].x == bp.max_x;
            assert(s[w].x == bb.max_x);
        }
        if s.last().y <= bp.min_y {
            assert(s[last].y == bb.min_y);
        } else {
            let w = choose|w: int| 0 <= w < t.len() && t[w].y == bp.min_y;
            assert(s[w].y == bb.min_y);
        }
        if s.last().y >= bp.max_y {
            assert(s[last].y == bb.max_y);
        } else {
            let w = choose|w: int| 0 <= w < t.len() && t[w].y == bp.max_y;
            assert(s[w].y == bb.max_y);
        }
        if s.last().z <= bp.min_z {
            assert(s[last].z == bb.min_z);
        } else {
            let w = choose|w: int| 0 <= w < t.len() && t[w].z == bp.min_z;
            assert(s[w].z == bb.min_z);
        }
        if s.last().z >= bp.max_z {
            assert(s[last].z == bb.max_z);
        } else {
            let w = choose|w: int| 0 <= w < t.len() && t[w].z == bp.max_z;
            assert(s[w].z == bb.max_z);
        }
    }
}

/// Splitting the input anywhere and merging the two partial boxes gives the
/// box of the whole input: the fold is associative, so any partitioning of
/// the point set across workers yields the same bounds.
pub proof fn lemma_bounds_concat(a: Seq<Point>, b: Seq<Point>)
    ensures
        bounds_of(a + b) == merge_opt(bounds_of(a), bounds_of(b)),
    decreases b.len(),
{
    if b.len() == 0 {
        assert(a + b =~= a);
    } else {
        lemma_bounds_concat(a, b.drop_last());
        assert((a + b).drop_last() =~= a + b.drop_last());
        assert((a + b).last() == b.last());
    }
}

/// Removing one point and folding its degenerate box back in gives the
/// bounds of the whole sequence.
pub proof fn lemma_bounds_remove(s: Seq<Point>, i: int)
    requires
        0 <= i < s.len(),
    ensures
        bounds_of(s) == merge_opt(bounds_of(s.remove(i)), Option::Some(point_box(s[i]))),
    decreases s.len(),
{
    if i == s.len() - 1 {
        assert(s.remove(i) =~= s.drop_last());
    } else {
        lemma_bounds_remove(s.drop_last(), i);
        assert(s.remove(i).drop_last() =~= s.drop_last().remove(i));
        assert(s.remove(i).last() == s.last());
        assert(s.drop_last()[i] == s[i]);
    }
}

/// Two sequences holding the same points, in any order, have the same
/// bounding box: together with the concatenation lemma, sequential and
/// parallel bounds reduction over any permutation of one point set agree
/// exactly, per axis and per side.
pub proof fn lemma_bounds_permutation(a: Seq<Point>, b: Seq<Point>)
    requires
        a.to_multiset() == b.to_multiset(),
    ensures
        bounds_of(a) == bounds_of(b),
    decreases a.len(),
{
    broadcast use vstd::seq_lib::group_to_multiset_ensures;

    if a.len() == 0 {
        assert(b.to_multiset().len() == 0);
        assert(b.len() == 0);
    } else {
        let p = a.last();
        assert(a[a.len() - 1] == p);
        assert(a.contains(p));
        assert(a.to_multiset().count(p) > 0);
        assert(b.to_multiset().count(p) > 0);
        assert(b.contains(p));
        let j = choose|j: int| 0 <= j < b.len() && b[j] == p;
        assert(a.drop_last() =~= a.remove(a.len() - 1));
        assert(a.drop_last().to_multiset() == a.to_multiset().remove(p));
        assert(b.remove(j).to_multiset() == b.to_multiset().remove(p));
        lemma_bounds_permutation(a.drop_last(), b.remove(j));
        lemma_bounds_remove(b, j);
    }
}

} // verus!
