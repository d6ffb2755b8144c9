//! The source of chance: dice and random picks come from rand's thread-local
//! generator.
use rand::seq::IndexedRandom;
use vstd::prelude::*;

verus! {

/// Relies on rand's `IndexedRandom::choose` over `rand::rng()`: on a
/// non-empty slice it returns a reference to one of its items.
#[verifier::external_body]
pub(crate) fn pick<T: Copy>(items: &Vec<T>) -> (r: T)
    requires
        items.len() > 0,
    ensures
        items@.contains(r),
{
    *items.choose(&mut rand::rng()).unwrap()
}

} // verus!
