//! The one randomness source of the simulation: a uniform integer draw.

use rand::Rng;
use vstd::prelude::*;

verus! {

/// Relies on `rand::Rng::gen_range` over the half-open integer range
/// `low..high`: the drawn value lies in `[low, high)`, and the call can
/// panic only on an empty range, which the precondition rules out.
/// Nothing more is promised of a random draw.
#[verifier::external_body]
pub(crate) fn draw_in_range(low: i64, high: i64) -> (r: i64)
    requires
        low < high,
    ensures
        low <= r < high,
{
    rand::thread_rng().gen_range(low..high)
}

} // verus!
