//! Random draws.

use rand::Rng;
use vstd::prelude::*;

verus! {

/// A random integer from 0 up to, but not including, `bound`.
///
/// Calls `rand::Rng::gen_range` on the generator of `rand::thread_rng`. What is
/// claimed of it is that a draw from the range `0..bound` lies in that range;
/// which number comes is left to chance. An empty range would panic and is ruled
/// out; the generator also panics on its first use where the operating system
/// has no entropy to seed it with.
#[verifier::external_body]
pub(crate) fn random_below(bound: u64) -> (r: u64)
    requires
        0 < bound,
    ensures
        r < bound,
{
    rand::thread_rng().gen_range(0..bound)
}

} // verus!
