//! The cell bucketizer: partitions the points of a set into per-cell
//! buckets.  Every input point lands in exactly one bucket — the one whose
//! cell index is the point's own — and no point is dropped or duplicated,
//! which the multiset equation in `bucketize`'s contract states exactly.

use vstd::prelude::*;
use vstd::multiset::Multiset;
use crate::bounds::BoundingBox;
use crate::grid::{cell_index, cell_of, GRID_LIMIT};
use crate::point::Point;

verus! {

/// One occupied grid cell and the points that fell into it.
pub struct Bucket {
    pub cell: u64,
    pub members: Vec<Point>,
}

/// A well-formed bucket list: every bucket is non-empty, its cell index is
/// a real cell of the grid, all its members map to that cell, and no two
/// buckets share a cell.
pub open spec fn wf_buckets(bs: Seq<Bucket>, bb: BoundingBox, g: int) -> bool {
    &&& forall|i: int| 0 <= i < bs.len() ==> (#[trigger] bs[i]).members@.len() > 0
    &&& forall|i: int| 0 <= i < bs.len() ==> ((#[trigger] bs[i]).cell as int) < g * g * g
    &&& forall|i: int, j: int|
        0 <= i < bs.len() && 0 <= j < bs[i].members@.len() ==> cell_of(
            bb,
            g,
            #[trigger] bs[i].members@[j],
        ) == bs[i].cell as int
    &&& forall|i: int, j: int|
        #![trigger bs[i].cell, bs[j].cell]
        0 <= i < j < bs.len() ==> bs[i].cell != bs[j].cell
}

/// All bucket members, bucket after bucket.
pub open spec fn flat(bs: Seq<Bucket>) -> Seq<Point>
    decreases bs.len(),
{
    if bs.len() == 0 {
        Seq::empty()
    } else {
        flat(bs.drop_last()) + bs.last().members@
    }
}

/// Appending a bucket appends its members to the flattened view.
pub proof fn lemma_flat_push(bs: Seq<Bucket>, b: Bucket)
    ensures
        flat(bs.push(b)) == flat(bs) + b.members@,
{
    assert(bs.push(b).drop_last() =~= bs);
    assert(bs.push(b).last() == b);
}

/// Pushing one point into one bucket inserts exactly that point into the
/// multiset of all members.
pub proof fn lemma_flat_update(bs: Seq<Bucket>, j: int, b2: Bucket, p: Point)
    requires
        0 <= j < bs.len(),
        b2.members@ == bs[j].members@.push(p),
    ensures
        flat(bs.update(j, b2)).to_multiset() == flat(bs).to_multiset().insert(p),
    decreases bs.len(),
{
    broadcast use vstd::seq_lib::group_to_multiset_ensures;

    let bs2 = bs.update(j, b2);
    if j == bs.len() - 1 {
        assert(bs2.drop_last() =~= bs.drop_last());
        assert(bs2.last() == b2);
        assert(flat(bs.drop_last()) + bs[j].members@.push(p) =~= (flat(bs.drop_last())
            + bs[j].members@).push(p));
    } else {
        assert(bs2.drop_last() =~= bs.drop_last().update(j, b2));
        assert(bs2.last() == bs.last());
        assert(bs.drop_last()[j] == bs[j]);
        lemma_flat_update(bs.drop_last(), j, b2, p);
        vstd::seq_lib::lemma_multiset_commutative(
            flat(bs.drop_last().update(j, b2)),
            bs.last().members@,
        );
        vstd::seq_lib::lemma_multiset_commutative(flat(bs.drop_last()), bs.last().members@);
        assert(flat(bs.drop_last()).to_multiset().insert(p).add(bs.last().members@.to_multiset())
            =~= flat(bs.drop_last()).to_multiset().add(bs.last().members@.to_multiset()).insert(
            p,
        ));
    }
}

/// Every member of every bucket occurs in the flattened view.
pub proof fn lemma_flat_contains(bs: Seq<Bucket>, i: int, j: int)
    requires
        0 <= i < bs.len(),
        0 <= j < bs[i].members@.len(),
    ensures
        flat(bs).contains(bs[i].members@[j]),
    decreases bs.len(),
{
    if i == bs.len() - 1 {
        assert(flat(bs)[flat(bs.drop_last()).len() + j] == bs[i].members@[j]);
    } else {
        lemma_flat_contains(bs.drop_last(), i, j);
        assert(bs.drop_last()[i] == bs[i]);
        let pre = flat(bs.drop_last());
        let k = choose|k: int| 0 <= k < pre.len() && pre[k] == bs[i].members@[j];
        assert(flat(bs)[k] == bs[i].members@[j]);
    }
}

/// The set of cells that a point sequence occupies.
pub open spec fn cells_of(s: Seq<Point>, bb: BoundingBox, g: int) -> Set<int> {
    s.map_values(|p: Point| cell_of(bb, g, p)).to_set()
}

/// Every point of the flattened view sits in some bucket.
proof fn lemma_flat_member_in_bucket(bs: Seq<Bucket>, p: Point) -> (r: (int, int))
    requires
        flat(bs).contains(p),
    ensures
        0 <= r.0 < bs.len(),
        0 <= r.1 < bs[r.0].members@.len(),
        bs[r.0].members@[r.1] == p,
    decreases bs.len(),
{
    if bs.len() == 0 {
        assert(false);
        (0, 0)
    } else {
        let k = choose|k: int| 0 <= k < flat(bs).len() && flat(bs)[k] == p;
        let pre = flat(bs.drop_last());
        if k < pre.len() {
            assert(pre[k] == p);
            assert(pre.contains(p));
            let (i, j) = lemma_flat_member_in_bucket(bs.drop_last(), p);
            assert(bs.drop_last()[i] == bs[i]);
            (i, j)
        } else {
            assert(bs.last().members@[k - pre.len()] == p);
            (bs.len() - 1, k - pre.len())
        }
    }
}

/// A well-formed bucket list over the points of a set holds exactly one
/// bucket per occupied cell: the number of buckets is the number of cells
/// the set occupies.
pub proof fn lemma_bucket_count_is_occupied(bs: Seq<Bucket>, s: Seq<Point>, bb: BoundingBox, g: int)
    requires
        wf_buckets(bs, bb, g),
        flat(bs).to_multiset() == s.to_multiset(),
    ensures
        bs.len() == cells_of(s, bb, g).len(),
{
    broadcast use vstd::seq_lib::group_to_multiset_ensures;
    broadcast use vstd::set::group_set_axioms;
    broadcast use vstd::seq_lib::seq_to_set_is_finite;

    let cellseq = bs.map_values(|b: Bucket| b.cell as int);
    assert(cellseq.no_duplicates()) by {
        assert forall|i: int, j: int| 0 <= i < j < cellseq.len() implies cellseq[i]
            != cellseq[j] by {
            assert(bs[i].cell != bs[j].cell);
        }
    }
    cellseq.unique_seq_to_set();
    let ms = s.map_values(|p: Point| cell_of(bb, g, p));
    assert(cellseq.to_set() =~= cells_of(s, bb, g)) by {
        assert forall|c: int| cellseq.to_set().contains(c) implies cells_of(s, bb, g).contains(
            c,
        ) by {
            let i = choose|i: int| 0 <= i < cellseq.len() && cellseq[i] == c;
            let m = bs[i].members@[0];
            assert(cell_of(bb, g, m) == c);
            lemma_flat_contains(bs, i, 0);
            assert(flat(bs).to_multiset().count(m) > 0);
            assert(s.to_multiset().count(m) > 0);
            assert(s.contains(m));
            let idx = choose|idx: int| 0 <= idx < s.len() && s[idx] == m;
            assert(ms[idx] == c);
            assert(ms.contains(c));
        }
        assert forall|c: int| cells_of(s, bb, g).contains(c) implies cellseq.to_set().contains(
            c,
        ) by {
            assert(ms.contains(c));
            let idx = choose|idx: int| 0 <= idx < ms.len() && ms[idx] == c;
            let p = s[idx];
            assert(cell_of(bb, g, p) == c);
            assert(s.contains(p));
            assert(s.to_multiset().count(p) > 0);
            assert(flat(bs).to_multiset().count(p) > 0);
            assert(flat(bs).contains(p));
            let (bi, bj) = lemma_flat_member_in_bucket(bs, p);
            assert(cell_of(bb, g, bs[bi].members@[bj]) == bs[bi].cell as int);
            assert(cellseq[bi] == c);
            assert(cellseq.contains(c));
        }
    }
}

/// Finds the bucket that already holds cell `c`, if one does.
fn find_bucket(buckets: &Vec<Bucket>, c: u64) -> (r: Option<usize>)
    ensures
        match r {
            Option::Some(j) => j < buckets@.len() && buckets@[j as int].cell == c,
            Option::None => forall|jj: int|
                0 <= jj < buckets@.len() ==> (#[trigger] buckets@[jj]).cell != c,
        },
{
    let mut j: usize = 0;
    while j < buckets.len()
        invariant
            j <= buckets@.len(),
            forall|jj: int| 0 <= jj < j ==> (#[trigger] buckets@[jj]).cell != c,
        decreases buckets@.len() - j,
    {
        if buckets[j].cell == c {
            return Option::Some(j);
        }
        j = j + 1;
    }
    Option::None
}

/// Partitions the points into per-cell buckets.  The flattened buckets hold
/// exactly the input points — every point contributes one entry to the one
/// bucket of its own cell — and there are at most as many buckets as points.
pub fn bucketize(points: &Vec<Point>, bb: &BoundingBox, g: u64) -> (r: Vec<Bucket>)
    requires
        bb.wf(),
        1 <= g <= GRID_LIMIT,
    ensures
        wf_buckets(r@, *bb, g as int),
        flat(r@).to_multiset() == points@.to_multiset(),
        r@.len() <= points@.len(),
{
    broadcast use vstd::seq_lib::group_to_multiset_ensures;

    let mut buckets: Vec<Bucket> = Vec::new();
    proof {
        assert(points@.take(0) =~= Seq::<Point>::empty());
        assert(flat(buckets@) =~= Seq::<Point>::empty());
        assert(Seq::<Point>::empty().to_multiset() =~= Multiset::<Point>::empty());
    }
    let mut i: usize = 0;
    while i < points.len()
        invariant
            i <= points@.len(),
            bb.wf(),
            1 <= g <= GRID_LIMIT,
            wf_buckets(buckets@, *bb, g as int),
            flat(buckets@).to_multiset() == points@.take(i as int).to_multiset(),
            buckets@.len() <= i,
        decreases points@.len() - i,
    {
        let p = points[i];
        let c = cell_index(bb, g, &p);
        let ghost pre = buckets@;
        match find_bucket(&buckets, c) {
            Option::Some(j) => {
                buckets[j].members.push(p);
                proof {
                    let b2 = buckets@[j as int];
                    assert(buckets@ == pre.update(j as int, b2));
                    assert(b2.members@ == pre[j as int].members@.push(p));
                    lemma_flat_update(pre, j as int, b2, p);
                    assert forall|a: int, b: int|
                        0 <= a < buckets@.len() && 0 <= b < buckets@[a].members@.len() implies
                        cell_of(*bb, g as int, #[trigger] buckets@[a].members@[b]) == buckets@[a].cell as int by {
                        if a == j as int && b == buckets@[a].members@.len() - 1 {
                            assert(buckets@[a].members@[b] == p);
                        } else {
                            assert(buckets@[a].members@[b] == pre[a].members@[b]);
                        }
                    }
                }
            },
            Option::None => {
                let mut members: Vec<Point> = Vec::new();
                members.push(p);
                let b = Bucket { cell: c, members };
                buckets.push(b);
                proof {
                    broadcast use vstd::seq_lib::group_to_multiset_ensures;

                    lemma_flat_push(pre, buckets@.last());
                    assert(flat(pre) + buckets@.last().members@ =~= flat(pre).push(p));
                    assert(flat(buckets@).to_multiset() == flat(pre).to_multiset().insert(p));
                    assert forall|a: int, b2: int|
                        0 <= a < buckets@.len() && 0 <= b2 < buckets@[a].members@.len() implies
                        cell_of(*bb, g as int, #[trigger] buckets@[a].members@[b2]) == buckets@[a].cell as int by {
                        if a == buckets@.len() - 1 {
                            assert(buckets@[a].members@[b2] == p);
                        } else {
                            assert(buckets@[a] == pre[a]);
                        }
                    }
                }
            },
        }
        proof {
            broadcast use vstd::seq_lib::group_to_multiset_ensures;

            assert(points@.take(i + 1) =~= points@.take(i as int).push(points@[i as int]));
            assert(points@.take(i + 1).to_multiset() == points@.take(i as int).to_multiset().insert(
                points@[i as int],
            ));
            assert(flat(buckets@).to_multiset() == flat(pre).to_multiset().insert(p));
        }
        i = i + 1;
    }
    proof {
        assert(points@.take(points@.len() as int) =~= points@);
    }
    buckets
}

/// Concatenates two bucket lists built on disjoint partitions of one input,
/// merging buckets that share a cell: membership of the result depends only
/// on what the two sides hold, never on the merge order, which the multiset
/// equation states.
pub fn merge_buckets(mut left: Vec<Bucket>, right: Vec<Bucket>, bb: &BoundingBox, g: u64) -> (r:
    Vec<Bucket>)
    requires
        bb.wf(),
        1 <= g <= GRID_LIMIT,
        wf_buckets(left@, *bb, g as int),
        wf_buckets(right@, *bb, g as int),
    ensures
        wf_buckets(r@, *bb, g as int),
        flat(r@).to_multiset() == flat(left@).to_multiset().add(flat(right@).to_multiset()),
{
    broadcast use vstd::seq_lib::group_to_multiset_ensures;

    let ghost left0 = left@;
    let mut i: usize = 0;
    while i < right.len()
        invariant
            i <= right@.len(),
            bb.wf(),
            1 <= g <= GRID_LIMIT,
            wf_buckets(left@, *bb, g as int),
            wf_buckets(right@, *bb, g as int),
            flat(left@).to_multiset() == flat(left0).to_multiset().add(
                flat(right@.take(i as int)).to_multiset(),
            ),
        decreases right@.len() - i,
    {
        let ghost pre = left@;
        let mut k: usize = 0;
        let n = right[i].members.len();
        proof {
            broadcast use vstd::seq_lib::group_to_multiset_ensures;

            assert(right@[i as int].members@.take(0) =~= Seq::<Point>::empty());
            assert(flat(pre).to_multiset().add(Seq::<Point>::empty().to_multiset()) =~= flat(
                pre,
            ).to_multiset());
        }
        while k < n
            invariant
                k <= n,
                n == right@[i as int].members@.len(),
                i < right@.len(),
                bb.wf(),
                1 <= g <= GRID_LIMIT,
                wf_buckets(left@, *bb, g as int),
                wf_buckets(right@, *bb, g as int),
                flat(left@).to_multiset() == flat(pre).to_multiset().add(
                    right@[i as int].members@.take(k as int).to_multiset(),
                ),
            decreases n - k,
        {
            let p = right[i].members[k];
            proof {
                assert(cell_of(*bb, g as int, p) == right@[i as int].cell as int);
            }
            let ghost mid = left@;
            let c = cell_index(bb, g, &p);
            match find_bucket(&left, c) {
                Option::Some(j) => {
                    left[j].members.push(p);
                    proof {
                        let b2 = left@[j as int];
                        assert(left@ == mid.update(j as int, b2));
                        assert(b2.members@ == mid[j as int].members@.push(p));
                        lemma_flat_update(mid, j as int, b2, p);
                        assert forall|a: int, b3: int|
                            0 <= a < left@.len() && 0 <= b3 < left@[a].members@.len() implies
                            cell_of(*bb, g as int, #[trigger] left@[a].members@[b3]) == left@[a].cell as int by {
                            if a == j as int && b3 == left@[a].members@.len() - 1 {
                                assert(left@[a].members@[b3] == p);
                            } else {
                                assert(left@[a].members@[b3] == mid[a].members@[b3]);
                            }
                        }
                    }
                },
                Option::None => {
                    let mut members: Vec<Point> = Vec::new();
                    members.push(p);
                    let nb = Bucket { cell: c, members };
                    left.push(nb);
                    proof {
                        broadcast use vstd::seq_lib::group_to_multiset_ensures;

                        lemma_flat_push(mid, left@.last());
                        assert(flat(mid) + left@.last().members@ =~= flat(mid).push(p));
                        assert(flat(left@).to_multiset() == flat(mid).to_multiset().insert(p));
                        assert forall|a: int, b3: int|
                            0 <= a < left@.len() && 0 <= b3 < left@[a].members@.len() implies
                            cell_of(*bb, g as int, #[trigger] left@[a].members@[b3]) == left@[a].cell as int by {
                            if a == left@.len() - 1 {
                                assert(left@[a].members@[b3] == p);
                            } else {
                                assert(left@[a] == mid[a]);
                            }
                        }
                    }
                },
            }
            proof {
                broadcast use vstd::seq_lib::group_to_multiset_ensures;

                let ms = right@[i as int].members@;
                assert(ms.take(k + 1) =~= ms.take(k as int).push(p));
                assert(ms.take(k + 1).to_multiset() == ms.take(k as int).to_multiset().insert(p));
                assert(flat(left@).to_multiset() == flat(mid).to_multiset().insert(p));
                assert(flat(pre).to_multiset().add(ms.take(k as int).to_multiset()).insert(p) =~=
                    flat(pre).to_multiset().add(ms.take(k as int).to_multiset().insert(p)));
            }
            k = k + 1;
        }
        proof {
            assert(right@[i as int].members@.take(n as int) =~= right@[i as int].members@);
            assert(flat(right@.take(i + 1)) =~= flat(right@.take(i as int)) + right@[
                i as int
            ].members@) by {
                assert(right@.take(i + 1).drop_last() =~= right@.take(i as int));
                assert(right@.take(i + 1).last() == right@[i as int]);
            }
            vstd::seq_lib::lemma_multiset_commutative(
                flat(right@.take(i as int)),
                right@[i as int].members@,
            );
            assert(flat(left0).to_multiset().add(flat(right@.take(i as int)).to_multiset()).add(
                right@[i as int].members@.to_multiset(),
            ) =~= flat(left0).to_multiset().add(
                flat(right@.take(i as int)).to_multiset().add(
                    right@[i as int].members@.to_multiset(),
                ),
            ));
        }
        i = i + 1;
    }
    proof {
        assert(right@.take(right@.len() as int) =~= right@);
    }
    left
}

} // verus!
