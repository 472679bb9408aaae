//! The comparison of two values, for callers that sort with it.

use crate::order::{order_of, value_order};
use crate::value::Value;
use std::cmp::Ordering;
use vstd::prelude::*;

verus! {

/// -1, 0 or 1 for less, equal or greater.
pub open spec fn ordering_sign(o: Ordering) -> int {
    match o {
        Ordering::Less => -1int,
        Ordering::Equal => 0int,
        Ordering::Greater => 1int,
    }
}

/// Compares two values in the order that sorted arrays are kept in.
pub fn compare_values(a: &Value, b: &Value) -> (r: Ordering)
    ensures
        ordering_sign(r) == value_order(a@, b@),
{
    let sign = order_of(a, b);
    if sign < 0 {
        Ordering::Less
    } else if sign > 0 {
        Ordering::Greater
    } else {
        Ordering::Equal
    }
}

} // verus!
