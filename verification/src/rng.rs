use vstd::prelude::*;

verus! {

/// Relies on rand's `Rng::gen_range` called on the range `0..bound`: it
/// returns a value drawn uniformly from that range, so the result is below
/// `bound`. The range is non-empty by the precondition, so the call does
/// not panic. Nothing more than the bound can be promised of a random draw.
#[verifier::external_body]
pub(crate) fn random_below(bound: usize) -> (r: usize)
    requires
        bound > 0,
    ensures
        r < bound,
{
    let mut generator = rand::thread_rng();
    rand::Rng::gen_range(&mut generator, 0..bound)
}

} // verus!
