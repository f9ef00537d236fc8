//! The one source of randomness: a uniform draw of an index below a bound.
//!
//! Every component that samples (the candidate factory, crossover, mutation,
//! parent selection) goes through this single function, so nothing else in the
//! library depends on the random-number crate.

use rand::Rng;
use vstd::prelude::*;

verus! {

/// Relies on rand::rng and rand::Rng::random_range: a sample drawn from the
/// uniform distribution on `0..n` lies strictly below `n`. The range is
/// nonempty, so the call does not panic. Nothing is assumed about which
/// index comes back.
#[verifier::external_body]
pub(crate) fn random_below(n: usize) -> (r: usize)
    requires
        0 < n,
    ensures
        r < n,
{
    let mut generator = rand::rng();
    generator.random_range(0..n)
}

} // verus!
