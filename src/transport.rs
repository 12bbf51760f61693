use vstd::prelude::*;

verus! {

/// The depth budget of a ray cast from the camera: how many reflections and
/// refractions may follow it, one inside another.
pub const REFLECTION_DEPTH: u8 = 5;

/// The budget of the secondary ray that a reflection or a refraction casts,
/// or `None` where it casts none and contributes black: where the material's
/// coefficient for it is zero, or where the budget is spent.
pub open spec fn next_depth(remaining: u8, coefficient_is_zero: bool) -> Option<u8> {
    if coefficient_is_zero || remaining == 0 {
        None
    } else {
        Some((remaining - 1) as u8)
    }
}

/// Decides whether a reflection or a refraction casts a secondary ray, and
/// with what budget (see `next_depth`).
pub fn secondary_depth(remaining: u8, coefficient_is_zero: bool) -> (r: Option<u8>)
    ensures
        r == next_depth(remaining, coefficient_is_zero),
{
    if coefficient_is_zero || remaining == 0 {
        None
    } else {
        Some(remaining - 1)
    }
}

/// With the budget spent, reflection and refraction contribute black,
/// whatever the material's coefficients.
pub proof fn lemma_spent_budget_casts_nothing(coefficient_is_zero: bool)
    ensures
        next_depth(0, coefficient_is_zero) is None,
{
}

/// Every secondary ray has a strictly smaller budget than the ray that cast
/// it, so no chain of reflections and refractions is longer than the budget
/// of the camera ray.
pub proof fn lemma_budget_decreases(remaining: u8, coefficient_is_zero: bool)
    ensures
        next_depth(remaining, coefficient_is_zero) matches Some(d) ==> d < remaining,
{
}

} // verus!
