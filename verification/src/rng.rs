//! Trusted access to the process random number generator.  Nothing is
//! assumed about which values come back — only what holds of every
//! outcome: a drawn index lies below its bound, and a shuffle permutes.

use vstd::prelude::*;
use crate::point::Point;

verus! {

/// Relies on rand::random_range over `0..bound`: the value drawn from the
/// thread-local generator lies in the non-empty range, so below `bound`.
#[verifier::external_body]
pub(crate) fn random_below(bound: usize) -> (r: usize)
    requires
        1 <= bound,
    ensures
        r < bound,
{
    rand::random_range(0..bound)
}

/// Relies on rand::seq::SliceRandom::shuffle: an in-place permutation of
/// the slice, so the multiset of elements is unchanged.
#[verifier::external_body]
pub(crate) fn shuffle_points(v: &mut Vec<Point>)
    ensures
        final(v)@.to_multiset() == old(v)@.to_multiset(),
        final(v)@.len() == old(v)@.len(),
{
    rand::seq::SliceRandom::shuffle(v.as_mut_slice(), &mut rand::rng())
}

} // verus!
