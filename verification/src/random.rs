//! Random choices, drawn from the thread-local generator of `rand`.
use vstd::prelude::*;

use rand::seq::{IndexedRandom, SliceRandom};
use rand::RngExt;

use crate::board::Coord;

verus! {

/// A uniformly drawn integer in `lo..=hi`, from `rand::RngExt::random_range`
/// on the thread-local generator. The contract claims only that the result
/// lies in the range, which `random_range` guarantees for a non-empty range
/// (it panics on an empty one, which `requires` rules out).
#[verifier::external_body]
pub(crate) fn random_between(lo: usize, hi: usize) -> (r: usize)
    requires
        lo <= hi,
    ensures
        lo <= r <= hi,
{
    rand::rng().random_range(lo..=hi)
}

/// A uniformly chosen element, from `rand::seq::IndexedRandom::choose` on the
/// thread-local generator. `choose` returns `None` only for an empty slice,
/// which `requires` rules out; the contract claims only that the result is an
/// element of the vector.
#[verifier::external_body]
pub(crate) fn choose_item<T>(items: &Vec<T>) -> (r: &T)
    requires
        items@.len() > 0,
    ensures
        items@.contains(*r),
{
    items.as_slice().choose(&mut rand::rng()).unwrap()
}

/// Shuffles the offsets in place, from `rand::seq::SliceRandom::shuffle` on
/// the thread-local generator. The contract claims only that the result is a
/// permutation of the input (the same multiset of offsets).
#[verifier::external_body]
pub(crate) fn shuffle_coords(v: &mut Vec<Coord>)
    ensures
        final(v)@.to_multiset() == old(v)@.to_multiset(),
{
    v.as_mut_slice().shuffle(&mut rand::rng());
}

} // verus!
