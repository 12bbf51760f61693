use vstd::prelude::*;

verus! {

/// Approximate equality, for values that carry rounding error.
pub trait FuzzyEq<T> {
    fn fuzzy_eq(&self, other: &T) -> bool;
}

} // verus!
