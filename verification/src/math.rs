//! Small numeric helpers and exact rational arithmetic.

pub mod divisors;
pub mod fractions;

use vstd::prelude::*;
#[allow(unused_imports)]
use vstd::std_specs::cmp::{PartialOrdIs, PartialOrdSpec};

verus! {

/// Returns the larger of two values, and `num2` when neither is larger.
///
/// The result is `num1` exactly when `num1 > num2` says so. For a type
/// whose order is specified, that is when `num1` is greater than `num2`.
pub fn greater<T: PartialOrd>(num1: T, num2: T) -> (r: T)
    ensures
        exists|larger: bool| #[trigger]
            call_ensures(T::gt, (&num1, &num2), larger) && r == (if larger {
                num1
            } else {
                num2
            }),
        T::obeys_partial_cmp_spec() ==> r == (if num1.is_gt(&num2) {
            num1
        } else {
            num2
        }),
{
    if num1 > num2 {
        num1
    } else {
        num2
    }
}

/// Returns the smaller of two values, and `num2` when neither is smaller.
///
/// The result is `num1` exactly when `num1 < num2` says so. For a type
/// whose order is specified, that is when `num1` is less than `num2`.
pub fn lesser<T: PartialOrd>(num1: T, num2: T) -> (r: T)
    ensures
        exists|smaller: bool| #[trigger]
            call_ensures(T::lt, (&num1, &num2), smaller) && r == (if smaller {
                num1
            } else {
                num2
            }),
        T::obeys_partial_cmp_spec() ==> r == (if num1.is_lt(&num2) {
            num1
        } else {
            num2
        }),
{
    if num1 < num2 {
        num1
    } else {
        num2
    }
}

} // verus!
