use vstd::prelude::*;

verus! {

/// Which of two colors an alternating pattern (stripes, rings, checkers)
/// shows in the band or cell numbered `band`: the first in even bands, the
/// second in odd ones, negative numbers included.
pub open spec fn alternating(band: int) -> bool {
    band % 2 == 0
}

/// The color of band or cell `band` of a pattern that alternates between
/// `a` and `b` (see `alternating`).
pub fn alternate<C: Copy>(band: i64, a: C, b: C) -> (r: C)
    ensures
        r == if alternating(band as int) {
            a
        } else {
            b
        },
{
    if band % 2 == 0 {
        a
    } else {
        b
    }
}

} // verus!
