//! The random source used by generation.

use vstd::prelude::*;
use rand::Rng;

verus! {

/// Relies on rand::Rng::gen_range over `0..n`: the result is a uniformly
/// random index below `n`. Nothing more can be promised of a random value;
/// the range is non-empty, so the call does not panic.
#[verifier::external_body]
pub(crate) fn pick_index(n: usize) -> (r: usize)
    requires
        n > 0,
    ensures
        r < n,
{
    rand::thread_rng().gen_range(0..n)
}

} // verus!
