//! Bounding a scalar into a closed interval.

use vstd::prelude::*;

verus! {

/// The value of `x` bounded into `[min, max]`: `min` below the interval,
/// `max` above it, `x` itself inside.
pub open spec fn limited(x: int, min: int, max: int) -> int {
    if x < min {
        min
    } else if x > max {
        max
    } else {
        x
    }
}

/// Bounds `x` into `[min, max]`.
///
/// The function is total: `min <= max` is expected but not demanded, and the
/// interval guarantee is stated under that condition only.
pub fn data_limit(x: i32, min: i32, max: i32) -> (r: i32)
    ensures
        r == limited(x as int, min as int, max as int),
        min <= max ==> min <= r <= max,
        min <= x <= max ==> r == x,
{
    if x < min {
        min
    } else if x > max {
        max
    } else {
        x
    }
}

} // verus!
