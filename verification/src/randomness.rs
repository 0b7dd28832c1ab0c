//! The library's only sources of randomness: a shuffle of a vector and a
//! draw of a bounded index, both through the `rand` crate. Nothing is
//! promised of which outcome comes back, only what holds of every outcome.

use rand::seq::SliceRandom;
use rand::Rng;
use vstd::prelude::*;

verus! {

/// Relies on rand::seq::SliceRandom::shuffle (driven by rand::thread_rng):
/// it reorders the slice in place and keeps exactly the same elements.
#[verifier::external_body]
pub(crate) fn shuffle(v: &mut Vec<u8>)
    ensures
        final(v)@.to_multiset() == old(v)@.to_multiset(),
{
    let mut rng = rand::thread_rng();
    v.as_mut_slice().shuffle(&mut rng);
}

/// Relies on rand::Rng::gen_range (driven by rand::thread_rng): on the
/// nonempty range `0..n` it returns a value of that range and does not
/// panic.
#[verifier::external_body]
pub(crate) fn random_below(n: usize) -> (r: usize)
    requires
        n >= 1,
    ensures
        r < n,
{
    let mut rng = rand::thread_rng();
    rng.gen_range(0..n)
}

} // verus!
