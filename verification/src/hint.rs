//! Branch hints.

use vstd::prelude::*;

verus! {

/// `branches::likely` hints that its argument is mostly true and returns it
/// unchanged.
pub assume_specification[ branches::likely ](b: bool) -> (r: bool)
    ensures
        r == b,
;

/// `branches::unlikely` hints that its argument is mostly false and returns it
/// unchanged.
pub assume_specification[ branches::unlikely ](b: bool) -> (r: bool)
    ensures
        r == b,
;

} // verus!
