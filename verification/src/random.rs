//! The random-number source of the random cycle modes (`rand`'s `StdRng`).

use rand::seq::SliceRandom;
use rand::Rng;
use rand::rngs::StdRng;
use vstd::prelude::*;

verus! {

/// `rand::rngs::StdRng`, carried through the library as an opaque value.
#[verifier::external_type_specification]
#[verifier::external_body]
pub struct ExStdRng(StdRng);

/// The random source went from `before` to `after` by drawing the index
/// `i` below `len`.  It is closed: outside this module it holds only where
/// `random_index` made that draw.
pub closed spec fn drew(before: StdRng, after: StdRng, len: usize, i: usize) -> bool {
    i < len
}

/// `rand::Rng::gen_range(0..len)`: a uniformly drawn index below `len`.
/// `gen_range` asserts that the range is not empty, hence `len > 0`; that the
/// draw lies in the range, and that it is the draw the source made, is all
/// that is claimed of it.
#[verifier::external_body]
pub(crate) fn random_index(rng: &mut StdRng, len: usize) -> (i: usize)
    requires
        len > 0,
    ensures
        i < len,
        drew(*old(rng), *final(rng), len, i),
{
    rng.gen_range(0..len)
}

/// `rand::seq::SliceRandom::shuffle`: a Fisher-Yates shuffle, which only
/// swaps elements, so the result is a permutation of the input.  Which
/// permutation comes out depends on the generator's state and is not stated.
#[verifier::external_body]
pub(crate) fn shuffle_indices(v: &mut Vec<usize>, rng: &mut StdRng)
    ensures
        final(v)@.len() == old(v)@.len(),
        final(v)@.to_multiset() == old(v)@.to_multiset(),
{
    v.shuffle(rng);
}

} // verus!
