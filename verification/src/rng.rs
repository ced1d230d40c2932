//! Randomness for tie-breaking in the planner. The solver's guarantees do
//! not depend on any property of the drawn values.

use vstd::prelude::*;

use rand::prelude::Rng;
use rand::prelude::SliceRandom;

verus! {

/// Relies on rand's thread_rng and Rng::gen: some machine word; nothing is
/// promised of its value.
#[verifier::external_body]
pub(crate) fn random_usize() -> usize {
    rand::thread_rng().gen()
}

/// Relies on rand's SliceRandom::shuffle (Fisher-Yates by pairwise swaps):
/// the vector afterwards is a permutation of the vector before, so its
/// multiset, its length and its membership are unchanged.
#[verifier::external_body]
pub(crate) fn shuffle_vec<T>(v: &mut Vec<T>)
    ensures
        final(v)@.to_multiset() == old(v)@.to_multiset(),
        final(v)@.len() == old(v)@.len(),
        forall|e: T| final(v)@.contains(e) == old(v)@.contains(e),
{
    v.shuffle(&mut rand::thread_rng());
}

} // verus!
