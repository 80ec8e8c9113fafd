//! The smallest and the largest value seen so far, under the order of `<` and `>`.
use vstd::prelude::*;
use vstd::std_specs::cmp::PartialOrdIs;
use vstd::std_specs::cmp::PartialOrdSpec;

verus! {

/// Comparisons of `T` in executable code agree with its order in specifications.
pub open spec fn order_is_specified<T: PartialOrd>() -> bool {
    T::obeys_partial_cmp_spec()
}

/// The largest value so far after `value` was seen: `value` if it is the
/// first one or greater than the largest one before it.
pub open spec fn keep_larger<T: PartialOrd>(best: Option<T>, value: T) -> Option<T> {
    match best {
        Some(largest) => if value.is_gt(&largest) {
            Some(value)
        } else {
            best
        },
        None => Some(value),
    }
}

/// The smallest value so far after `value` was seen: `value` if it is the
/// first one or less than the smallest one before it.
pub open spec fn keep_smaller<T: PartialOrd>(best: Option<T>, value: T) -> Option<T> {
    match best {
        Some(smallest) => if value.is_lt(&smallest) {
            Some(value)
        } else {
            best
        },
        None => Some(value),
    }
}

/// The largest of `values`, seen from first to last; none of no values.
pub open spec fn largest<T: PartialOrd>(values: Seq<T>) -> Option<T>
    decreases values.len(),
{
    if values.len() == 0 {
        None
    } else {
        keep_larger(largest(values.drop_last()), values.last())
    }
}

/// The smallest of `values`, seen from first to last; none of no values.
pub open spec fn smallest<T: PartialOrd>(values: Seq<T>) -> Option<T>
    decreases values.len(),
{
    if values.len() == 0 {
        None
    } else {
        keep_smaller(smallest(values.drop_last()), values.last())
    }
}

/// Seeing one more value updates the extremes by that value.
pub proof fn lemma_extremes_push<T: PartialOrd>(values: Seq<T>, value: T)
    ensures
        largest(values.push(value)) == keep_larger(largest(values), value),
        smallest(values.push(value)) == keep_smaller(smallest(values), value),
{
    assert(values.push(value).drop_last() =~= values);
}

/// Widens the range `min..=max` of the values seen so far by `value`.
pub fn widen_range<T: Copy + PartialOrd>(value: T, min: Option<T>, max: Option<T>) -> (range: (
    Option<T>,
    Option<T>,
))
    ensures
        range.0 == min || range.0 == Some(value),
        range.1 == max || range.1 == Some(value),
        range.0 is Some && range.1 is Some,
        order_is_specified::<T>() ==> range == (keep_smaller(min, value), keep_larger(max, value)),
{
    let widened_max = match max {
        Some(largest) => if value > largest {
            Some(value)
        } else {
            max
        },
        None => Some(value),
    };
    let widened_min = match min {
        Some(smallest) => if value < smallest {
            Some(value)
        } else {
            min
        },
        None => Some(value),
    };
    (widened_min, widened_max)
}

} // verus!
