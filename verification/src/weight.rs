//! Key weights as fixed-point integers.

use vstd::prelude::*;

verus! {

/// The weight of a key that was given none: one whole unit.
pub const DEFAULT_WEIGHT: u32 = 1000;

/// The sum of two weights, held at the largest weight where it would pass it.
pub open spec fn weight_sum(a: u32, b: u32) -> u32 {
    if a + b > u32::MAX {
        u32::MAX
    } else {
        (a + b) as u32
    }
}

/// Adds two weights, saturating.
pub fn add_weights(a: u32, b: u32) -> (sum: u32)
    ensures
        sum == weight_sum(a, b),
{
    a.saturating_add(b)
}

} // verus!
