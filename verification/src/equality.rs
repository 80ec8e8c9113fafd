//! Telling values apart with `!=`.
use vstd::prelude::*;
use vstd::std_specs::cmp::PartialEqSpec;

verus! {

/// Equality of `T` in executable code agrees with its equality in specifications.
pub open spec fn equality_is_specified<T: PartialEq>() -> bool {
    T::obeys_eq_spec()
}

/// `a` and `b` are equal as `==` on `T` has it.
pub open spec fn same_value<T: PartialEq>(a: T, b: T) -> bool {
    a.eq_spec(&b)
}

/// Whether `a != b`.
pub fn differs<T: PartialEq>(a: &T, b: &T) -> (different: bool)
    ensures
        equality_is_specified::<T>() ==> different == !same_value(*a, *b),
{
    a != b
}

} // verus!
