//! Utilities for various things
use vstd::prelude::*;
use vstd::std_specs::cmp::{PartialOrdIs, PartialOrdSpec};

verus! {

/// Checks if a given value is inside of a given range: `min <= val < max`.
pub fn in_range<T: PartialOrd>(val: &T, min: T, max: T) -> (r: bool)
    ensures
        T::obeys_partial_cmp_spec() ==> (r == (val.is_ge(&min) && val.is_lt(&max))),
{
    *val >= min && *val < max
}

fn check_u8(x: u8, w: u8) -> (r: bool)
    ensures r == (x < w)
{
    in_range(&x, 0, w)
}

} // verus!
