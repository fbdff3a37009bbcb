//! The sampling pipeline: one representative per occupied cell, then the
//! count reconciled to the exact target.
//!
//! `fast_grid_sampling` runs the whole pipeline — bounds, grid, buckets,
//! per-cell draw, count adjustment — on a non-empty point set, and
//! `reduce_point_set` validates a request first, rejecting an empty set or
//! a zero target as an invalid parameter instead of looping on it.

use vstd::prelude::*;
use crate::bounds::{bounds_of, compute_bounds, BoundingBox};
use crate::buckets::{bucketize, cells_of, flat, lemma_bucket_count_is_occupied, lemma_flat_contains, wf_buckets, Bucket};
use crate::grid::{cell_of, grid_size_for, grid_size_of, TARGET_LIMIT};
use crate::point::{MeshObject, Point, ReduceError};
use crate::rng::{random_below, shuffle_points};

verus! {

/// Draws one member from every bucket, uniformly at random: one
/// representative per occupied cell.
pub fn sample_cells(buckets: &Vec<Bucket>) -> (r: Vec<Point>)
    requires
        forall|i: int| 0 <= i < buckets@.len() ==> (#[trigger] buckets@[i]).members@.len() > 0,
    ensures
        r@.len() == buckets@.len(),
        forall|i: int| 0 <= i < r@.len() ==> buckets@[i].members@.contains(#[trigger] r@[i]),
{
    let mut picks: Vec<Point> = Vec::new();
    let mut i: usize = 0;
    while i < buckets.len()
        invariant
            i <= buckets@.len(),
            picks@.len() == i,
            forall|k: int| 0 <= k < buckets@.len() ==> (#[trigger] buckets@[k]).members@.len()
                > 0,
            forall|k: int| 0 <= k < i ==> buckets@[k].members@.contains(#[trigger] picks@[k]),
        decreases buckets@.len() - i,
    {
        let m = buckets[i].members.len();
        let idx = random_below(m);
        let p = buckets[i].members[idx];
        picks.push(p);
        i = i + 1;
    }
    picks
}

/// No cell contributes more than one representative: picks taken one per
/// bucket of a well-formed bucket list map to pairwise distinct cells.
pub proof fn lemma_one_per_cell(bs: Seq<Bucket>, picks: Seq<Point>, bb: BoundingBox, g: int)
    requires
        wf_buckets(bs, bb, g),
        picks.len() == bs.len(),
        forall|i: int| 0 <= i < picks.len() ==> bs[i].members@.contains(#[trigger] picks[i]),
    ensures
        forall|i: int, j: int|
            #![trigger cell_of(bb, g, picks[i]), cell_of(bb, g, picks[j])]
            0 <= i < j < picks.len() ==> cell_of(bb, g, picks[i]) != cell_of(bb, g, picks[j]),
{
    assert forall|i: int, j: int|
        #![trigger cell_of(bb, g, picks[i]), cell_of(bb, g, picks[j])]
        0 <= i < j < picks.len() implies cell_of(bb, g, picks[i]) != cell_of(
        bb,
        g,
        picks[j],
    ) by {
        let ii = choose|ii: int| 0 <= ii < bs[i].members@.len() && bs[i].members@[ii] == picks[i];
        let jj = choose|jj: int| 0 <= jj < bs[j].members@.len() && bs[j].members@[jj] == picks[j];
        assert(cell_of(bb, g, picks[i]) == bs[i].cell as int);
        assert(cell_of(bb, g, picks[j]) == bs[j].cell as int);
        assert(bs[i].cell != bs[j].cell);
    }
}

/// Two distinct positions of a sequence holding one value put that value
/// into the multiset at least twice.
proof fn lemma_two_positions_count(s: Seq<Point>, i: int, j: int)
    requires
        0 <= i < j < s.len(),
        s[i] == s[j],
    ensures
        s.to_multiset().count(s[i]) >= 2,
{
    broadcast use vstd::seq_lib::group_to_multiset_ensures;

    let v = s[i];
    assert(s.remove(i).to_multiset() == s.to_multiset().remove(v));
    assert(s.remove(i)[j - 1] == v);
    assert(s.remove(i).contains(v));
    assert(s.remove(i).to_multiset().count(v) > 0);
}

/// A value counted at least twice sits at two distinct positions.
proof fn lemma_count_two_positions(s: Seq<Point>, v: Point) -> (r: (int, int))
    requires
        s.to_multiset().count(v) >= 2,
    ensures
        0 <= r.0 < s.len(),
        0 <= r.1 < s.len(),
        r.0 != r.1,
        s[r.0] == v,
        s[r.1] == v,
{
    broadcast use vstd::seq_lib::group_to_multiset_ensures;

    assert(s.contains(v));
    let a = choose|a: int| 0 <= a < s.len() && s[a] == v;
    assert(s.remove(a).to_multiset() == s.to_multiset().remove(v));
    assert(s.remove(a).to_multiset().count(v) >= 1);
    assert(s.remove(a).contains(v));
    let b0 = choose|b0: int| 0 <= b0 < s.remove(a).len() && s.remove(a)[b0] == v;
    let b = if b0 < a {
        b0
    } else {
        b0 + 1
    };
    assert(s[b] == v);
    (a, b)
}

/// Stratification survives truncation: a multiset subset of a selection
/// whose points lie in pairwise distinct cells again lies in pairwise
/// distinct cells.  Together with the one-pick-per-cell law, a selection
/// truncated to the target still contributes at most one point per cell.
pub proof fn lemma_subset_keeps_one_per_cell(
    sel: Seq<Point>,
    r: Seq<Point>,
    bb: BoundingBox,
    g: int,
)
    requires
        forall|i: int, j: int|
            #![trigger cell_of(bb, g, sel[i]), cell_of(bb, g, sel[j])]
            0 <= i < j < sel.len() ==> cell_of(bb, g, sel[i]) != cell_of(bb, g, sel[j]),
        r.to_multiset().subset_of(sel.to_multiset()),
    ensures
        forall|i: int, j: int|
            #![trigger cell_of(bb, g, r[i]), cell_of(bb, g, r[j])]
            0 <= i < j < r.len() ==> cell_of(bb, g, r[i]) != cell_of(bb, g, r[j]),
{
    broadcast use vstd::seq_lib::group_to_multiset_ensures;

    assert forall|i: int, j: int|
        #![trigger cell_of(bb, g, r[i]), cell_of(bb, g, r[j])]
        0 <= i < j < r.len() implies cell_of(bb, g, r[i]) != cell_of(bb, g, r[j]) by {
        if r[i] == r[j] {
            lemma_two_positions_count(r, i, j);
            assert(sel.to_multiset().count(r[i]) >= 2);
            let (a, b) = lemma_count_two_positions(sel, r[i]);
            assert(cell_of(bb, g, sel[a]) != cell_of(bb, g, sel[b]));
            assert(false);
        } else if cell_of(bb, g, r[i]) == cell_of(bb, g, r[j]) {
            assert(r.to_multiset().count(r[i]) > 0);
            assert(r.to_multiset().count(r[j]) > 0);
            assert(sel.contains(r[i]));
            assert(sel.contains(r[j]));
            let a = choose|a: int| 0 <= a < sel.len() && sel[a] == r[i];
            let b = choose|b: int| 0 <= b < sel.len() && sel[b] == r[j];
            assert(a != b);
            assert(cell_of(bb, g, sel[a]) != cell_of(bb, g, sel[b]));
            assert(false);
        }
    }
}

/// Every member of every bucket comes from the sequence whose points the
/// buckets hold.
pub proof fn lemma_buckets_members_from(bs: Seq<Bucket>, s: Seq<Point>)
    requires
        flat(bs).to_multiset() == s.to_multiset(),
    ensures
        forall|i: int, j: int|
            0 <= i < bs.len() && 0 <= j < bs[i].members@.len() ==> s.contains(
                #[trigger] bs[i].members@[j],
            ),
{
    broadcast use vstd::seq_lib::group_to_multiset_ensures;

    assert forall|i: int, j: int|
        0 <= i < bs.len() && 0 <= j < bs[i].members@.len() implies s.contains(
        #[trigger] bs[i].members@[j],
    ) by {
        lemma_flat_contains(bs, i, j);
        let p = bs[i].members@[j];
        assert(flat(bs).to_multiset().count(p) > 0);
        assert(s.to_multiset().count(p) > 0);
    }
}

/// A prefix of a sequence holds a sub-multiset of its elements.
proof fn lemma_take_subset(s: Seq<Point>, k: int)
    requires
        0 <= k <= s.len(),
    ensures
        s.take(k).to_multiset().subset_of(s.to_multiset()),
{
    broadcast use vstd::seq_lib::group_to_multiset_ensures;

    assert(s =~= s.take(k) + s.skip(k));
    vstd::seq_lib::lemma_multiset_commutative(s.take(k), s.skip(k));
    assert forall|v: Point| s.take(k).to_multiset().count(v) <= s.to_multiset().count(v) by {
        assert(s.to_multiset().count(v) == s.take(k).to_multiset().count(v) + s.skip(
            k,
        ).to_multiset().count(v));
    }
}

/// Reconciles the sampled points to exactly the target count: with too
/// many, a uniform shuffle followed by truncation — a subset, nothing
/// reintroduced; with too few, repeated uniform draws from the original
/// set, with replacement, appended after the sampled prefix until the
/// target is reached; with an exact match, the selection as it stands.
pub fn adjust_count(selected: Vec<Point>, points: &Vec<Point>, clusters: usize) -> (r: Vec<
    Point,
>)
    requires
        points@.len() >= 1,
        forall|i: int| 0 <= i < selected@.len() ==> points@.contains(#[trigger] selected@[i]),
    ensures
        r@.len() == clusters,
        forall|i: int| 0 <= i < r@.len() ==> points@.contains(#[trigger] r@[i]),
        selected@.len() >= clusters ==> r@.to_multiset().subset_of(selected@.to_multiset()),
        selected@.len() <= clusters ==> r@.take(selected@.len() as int) == selected@,
{
    broadcast use vstd::seq_lib::group_to_multiset_ensures;

    let mut sel = selected;
    let ghost sel0 = sel@;
    if sel.len() > clusters {
        shuffle_points(&mut sel);
        let ghost shuffled = sel@;
        sel.truncate(clusters);
        proof {
            assert(sel@ == shuffled.take(clusters as int));
            lemma_take_subset(shuffled, clusters as int);
            assert forall|v: Point| sel@.to_multiset().count(v) <= sel0.to_multiset().count(
                v,
            ) by {
                assert(sel@.to_multiset().count(v) <= shuffled.to_multiset().count(v));
            }
            assert forall|i: int| 0 <= i < sel@.len() implies points@.contains(
                #[trigger] sel@[i],
            ) by {
                let v = sel@[i];
                assert(sel@.to_multiset().count(v) > 0);
                assert(sel0.to_multiset().count(v) > 0);
                assert(sel0.contains(v));
                let j = choose|j: int| 0 <= j < sel0.len() && sel0[j] == v;
            }
        }
        sel
    } else {
        proof {
            assert(sel@.take(sel0.len() as int) =~= sel0);
        }
        while sel.len() < clusters
            invariant
                points@.len() >= 1,
                sel0.len() <= sel@.len(),
                sel@.len() <= clusters || sel@.len() == sel0.len(),
                sel@.take(sel0.len() as int) == sel0,
                forall|i: int| 0 <= i < sel@.len() ==> points@.contains(#[trigger] sel@[i]),
            decreases clusters - sel@.len(),
        {
            let idx = random_below(points.len());
            let p = points[idx];
            proof {
                assert(points@.contains(points@[idx as int]));
            }
            sel.push(p);
            proof {
                assert(sel@.take(sel0.len() as int) =~= sel0);
            }
        }
        proof {
            if sel0.len() >= clusters {
                assert(sel@ == sel0);
                assert(sel@.to_multiset().subset_of(sel0.to_multiset()));
            }
        }
        sel
    }
}

/// Copies a point vector element by element.
pub fn clone_points(v: &Vec<Point>) -> (r: Vec<Point>)
    ensures
        r@ == v@,
{
    let mut out: Vec<Point> = Vec::new();
    let mut i: usize = 0;
    while i < v.len()
        invariant
            i <= v@.len(),
            out@ == v@.take(i as int),
        decreases v@.len() - i,
    {
        out.push(v[i]);
        proof {
            assert(v@.take(i + 1) =~= v@.take(i as int).push(v@[i as int]));
        }
        i = i + 1;
    }
    proof {
        assert(v@.take(v@.len() as int) =~= v@);
    }
    out
}

/// Reduces a non-empty point set to exactly `clusters` points: bounding
/// box, grid of the smallest resolution whose cube reaches the target,
/// buckets per occupied cell, one random representative per bucket, and
/// the count reconciled to the target.  Every output point is an input
/// point, and as long as the target does not exceed the number of
/// occupied cells, no two output points share a cell.
pub fn fast_grid_sampling(points: Vec<Point>, clusters: usize) -> (r: Vec<Point>)
    requires
        1 <= points@.len(),
        1 <= clusters,
        clusters as u64 <= TARGET_LIMIT,
    ensures
        r@.len() == clusters,
        forall|i: int| 0 <= i < r@.len() ==> points@.contains(#[trigger] r@[i]),
        clusters <= cells_of(
            points@,
            bounds_of(points@)->Some_0,
            grid_size_of(clusters as int),
        ).len() ==> forall|i: int, j: int|
            #![trigger r@[i], r@[j]]
            0 <= i < j < r@.len() ==> cell_of(
                bounds_of(points@)->Some_0,
                grid_size_of(clusters as int),
                r@[i],
            ) != cell_of(bounds_of(points@)->Some_0, grid_size_of(clusters as int), r@[j]),
{
    let g = grid_size_for(clusters);
    let bb = match compute_bounds(&points) {
        Option::Some(b) => b,
        Option::None => {
            proof {
                crate::bounds::lemma_bounds_wf(points@);
                assert(false);
            }
            return Vec::new();
        },
    };
    proof {
        crate::bounds::lemma_bounds_wf(points@);
    }
    let buckets = bucketize(&points, &bb, g);
    proof {
        lemma_buckets_members_from(buckets@, points@);
    }
    let selected = sample_cells(&buckets);
    proof {
        assert forall|i: int| 0 <= i < selected@.len() implies points@.contains(
            #[trigger] selected@[i],
        ) by {
            let j = choose|j: int|
                0 <= j < buckets@[i].members@.len() && buckets@[i].members@[j] == selected@[i];
        }
    }
    let ghost selected0 = selected@;
    let out = adjust_count(selected, &points, clusters);
    proof {
        let bbv = bounds_of(points@)->Some_0;
        let gv = grid_size_of(clusters as int);
        assert(bb == bbv);
        assert(g as int == gv);
        if clusters <= cells_of(points@, bbv, gv).len() {
            lemma_bucket_count_is_occupied(buckets@, points@, bbv, gv);
            assert(selected0.len() >= clusters);
            lemma_one_per_cell(buckets@, selected0, bbv, gv);
            lemma_subset_keeps_one_per_cell(selected0, out@, bbv, gv);
        }
    }
    out
}

/// Validates a reduction request before any sampling work: an empty point
/// set or a zero target is an invalid parameter, never silently coerced;
/// every valid request yields exactly `clusters` points, all of them taken
/// from the input.
pub fn reduce_point_set(points: Vec<Point>, clusters: usize) -> (r: Result<
    Vec<Point>,
    ReduceError,
>)
    requires
        clusters as u64 <= TARGET_LIMIT,
    ensures
        match r {
            Result::Ok(out) => 1 <= clusters && points@.len() >= 1 && out@.len() == clusters
                && forall|i: int| 0 <= i < out@.len() ==> points@.contains(#[trigger] out@[i]),
            Result::Err(e) => e == ReduceError::InvalidParameter && (clusters == 0
                || points@.len() == 0),
        },
{
    if clusters == 0 || points.len() == 0 {
        Result::Err(ReduceError::InvalidParameter)
    } else {
        Result::Ok(fast_grid_sampling(points, clusters))
    }
}

/// Reduces an already loaded mesh: validates the request, samples the
/// points down to the target, and pairs the result with the mesh's name.
pub fn reduce_loaded_mesh(name: String, points: Vec<Point>, clusters: usize) -> (r: Result<
    MeshObject,
    ReduceError,
>)
    requires
        clusters as u64 <= TARGET_LIMIT,
    ensures
        match r {
            Result::Ok(m) => m.name == name && 1 <= clusters && points@.len() >= 1
                && m.points@.len() == clusters && forall|i: int|
                0 <= i < m.points@.len() ==> points@.contains(#[trigger] m.points@[i]),
            Result::Err(e) => e == ReduceError::InvalidParameter && (clusters == 0
                || points@.len() == 0),
        },
{
    match reduce_point_set(points, clusters) {
        Result::Ok(reduced) => Result::Ok(MeshObject { name, points: reduced }),
        Result::Err(e) => Result::Err(e),
    }
}

/// The sequence is sorted in descending order.
pub open spec fn sorted_desc(s: Seq<usize>) -> bool {
    forall|i: int, j: int| #![trigger s[i], s[j]] 0 <= i < j < s.len() ==> s[i] >= s[j]
}

/// Sorts the target counts in descending order, by insertion.
pub fn sort_targets_descending(targets: &Vec<usize>) -> (r: Vec<usize>)
    ensures
        r@.to_multiset() == targets@.to_multiset(),
        sorted_desc(r@),
        r@.len() == targets@.len(),
{
    broadcast use vstd::seq_lib::group_to_multiset_ensures;

    let mut out: Vec<usize> = Vec::new();
    proof {
        assert(targets@.take(0) =~= Seq::<usize>::empty());
        assert(out@.to_multiset() =~= targets@.take(0).to_multiset());
    }
    let mut i: usize = 0;
    while i < targets.len()
        invariant
            i <= targets@.len(),
            out@.to_multiset() == targets@.take(i as int).to_multiset(),
            sorted_desc(out@),
            out@.len() == i,
        decreases targets@.len() - i,
    {
        let x = targets[i];
        let ghost pre = out@;
        let mut pos: usize = 0;
        while pos < out.len() && out[pos] >= x
            invariant
                pos <= out@.len(),
                out@ == pre,
                forall|j: int| 0 <= j < pos ==> pre[j] >= x,
            decreases out@.len() - pos,
        {
            pos = pos + 1;
        }
        out.insert(pos, x);
        proof {
            broadcast use vstd::seq_lib::group_to_multiset_ensures;

            assert(out@ == pre.insert(pos as int, x));
            vstd::seq_lib::to_multiset_insert(pre, pos as int, x);
            assert(targets@.take(i + 1) =~= targets@.take(i as int).push(x));
            assert forall|a: int, b: int|
                #![trigger out@[a], out@[b]]
                0 <= a < b < out@.len() implies out@[a] >= out@[b] by {
                if b < pos {
                    assert(out@[a] == pre[a] && out@[b] == pre[b]);
                } else if a < pos && b == pos {
                    assert(out@[a] == pre[a] && out@[b] == x);
                } else if a < pos && b > pos {
                    assert(out@[a] == pre[a] && out@[b] == pre[b - 1]);
                } else if a == pos && b > pos {
                    assert(out@[a] == x && out@[b] == pre[b - 1]);
                    assert(pre[pos as int] < x);
                    assert(pre[pos as int] >= pre[b - 1]);
                } else {
                    assert(out@[a] == pre[a - 1] && out@[b] == pre[b - 1]);
                }
            }
        }
        i = i + 1;
    }
    proof {
        assert(targets@.take(targets@.len() as int) =~= targets@);
    }
    out
}

/// Reduces one point set once per requested target, in descending target
/// order: the largest target is sampled from the full set, every further
/// target from that first reduction — a multi-resolution reduction from a
/// single load.  Each returned pair holds the target it answers and
/// exactly that many points, all drawn from the input; an empty target
/// list, an empty point set or a zero target is an invalid parameter.
pub fn reduce_point_set_multi(points: &Vec<Point>, targets: &Vec<usize>) -> (r: Result<
    Vec<(usize, Vec<Point>)>,
    ReduceError,
>)
    requires
        forall|i: int| 0 <= i < targets@.len() ==> (#[trigger] targets@[i]) as u64 <= TARGET_LIMIT,
    ensures
        match r {
            Result::Ok(rs) => {
                &&& targets@.len() >= 1
                &&& points@.len() >= 1
                &&& forall|i: int| 0 <= i < targets@.len() ==> (#[trigger] targets@[i]) >= 1
                &&& rs@.len() == targets@.len()
                &&& rs@.map_values(|pr: (usize, Vec<Point>)| pr.0).to_multiset()
                    == targets@.to_multiset()
                &&& forall|i: int, j: int|
                    #![trigger rs@[i].0, rs@[j].0]
                    0 <= i < j < rs@.len() ==> rs@[i].0 >= rs@[j].0
                &&& forall|i: int| 0 <= i < rs@.len() ==> (#[trigger] rs@[i].1)@.len() == rs@[i].0
                &&& forall|i: int, k: int|
                    0 <= i < rs@.len() && 0 <= k < rs@[i].1@.len() ==> points@.contains(
                        #[trigger] rs@[i].1@[k],
                    )
            },
            Result::Err(e) => e == ReduceError::InvalidParameter && (targets@.len() == 0
                || points@.len() == 0 || exists|i: int|
                0 <= i < targets@.len() && targets@[i] == 0),
        },
{
    broadcast use vstd::seq_lib::group_to_multiset_ensures;

    if targets.len() == 0 || points.len() == 0 {
        return Result::Err(ReduceError::InvalidParameter);
    }
    let mut i: usize = 0;
    while i < targets.len()
        invariant
            i <= targets@.len(),
            forall|j: int| 0 <= j < i ==> targets@[j] >= 1,
        decreases targets@.len() - i,
    {
        if targets[i] == 0 {
            return Result::Err(ReduceError::InvalidParameter);
        }
        i = i + 1;
    }
    let sorted = sort_targets_descending(targets);
    proof {
        assert forall|j: int| 0 <= j < sorted@.len() implies 1 <= (#[trigger] sorted@[j]) as u64
            <= TARGET_LIMIT by {
            assert(sorted@.to_multiset().count(sorted@[j]) > 0);
            assert(targets@.to_multiset().count(sorted@[j]) > 0);
            assert(targets@.contains(sorted@[j]));
            let k = choose|k: int| 0 <= k < targets@.len() && targets@[k] == sorted@[j];
        }
    }
    let first_target = sorted[0];
    let base = clone_points(points);
    let first = fast_grid_sampling(base, first_target);
    let mut rs: Vec<(usize, Vec<Point>)> = Vec::new();
    let mut i: usize = 0;
    while i < sorted.len()
        invariant
            i <= sorted@.len(),
            sorted_desc(sorted@),
            forall|j: int| 0 <= j < sorted@.len() ==> 1 <= (#[trigger] sorted@[j]) as u64
                <= TARGET_LIMIT,
            first_target == sorted@[0],
            sorted@.len() >= 1,
            points@.len() >= 1,
            first@.len() == first_target,
            forall|k: int| 0 <= k < first@.len() ==> points@.contains(#[trigger] first@[k]),
            rs@.len() == i,
            rs@.map_values(|pr: (usize, Vec<Point>)| pr.0) == sorted@.take(i as int),
            forall|a: int| 0 <= a < i ==> (#[trigger] rs@[a].1)@.len() == rs@[a].0,
            forall|a: int, k: int|
                0 <= a < i && 0 <= k < rs@[a].1@.len() ==> points@.contains(
                    #[trigger] rs@[a].1@[k],
                ),
            forall|a: int| 0 <= a < i ==> (#[trigger] rs@[a].0) == sorted@[a],
        decreases sorted@.len() - i,
    {
        let t = sorted[i];
        let reduced: Vec<Point> = if t == first_target {
            clone_points(&first)
        } else {
            let again = fast_grid_sampling(clone_points(&first), t);
            proof {
                assert forall|k: int| 0 <= k < again@.len() implies points@.contains(
                    #[trigger] again@[k],
                ) by {
                    let j = choose|j: int| 0 <= j < first@.len() && first@[j] == again@[k];
                }
            }
            again
        };
        rs.push((t, reduced));
        proof {
            assert(rs@.map_values(|pr: (usize, Vec<Point>)| pr.0) =~= sorted@.take(i + 1));
        }
        i = i + 1;
    }
    proof {
        assert(sorted@.take(sorted@.len() as int) =~= sorted@);
        assert(rs@.map_values(|pr: (usize, Vec<Point>)| pr.0) == sorted@);
    }
    Result::Ok(rs)
}

} // verus!
