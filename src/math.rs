use vstd::prelude::*;

verus! {

/// Restricts `x` to the closed range `[min, max]`: `min` below it, `max`
/// above it.
pub fn clamp(x: i64, min: i64, max: i64) -> (r: i64)
    ensures
        r == (if x < min { min } else if x > max { max } else { x }),
        min <= max ==> min <= r <= max,
{
    if x < min {
        min
    } else if x > max {
        max
    } else {
        x
    }
}

} // verus!
