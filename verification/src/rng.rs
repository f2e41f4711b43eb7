//! The single point of contact with the outside random source. Every other
//! function of the crate takes the draws it needs as plain integer arguments
//! and is verified for every value of them.

use vstd::prelude::*;

verus! {

/// Relies on rand::random_range on the integer range `0..bound`: the thread's
/// generator returns a value uniform in that range, so in particular the
/// result is always below the bound. The range must be non-empty.
#[verifier::external_body]
pub fn draw_below(bound: u64) -> (r: u64)
    requires
        1 <= bound,
    ensures
        r < bound,
{
    rand::random_range(0..bound)
}

} // verus!
