//! Costs as fixed-point numbers.
//!
//! A cost is a log-probability held in an `i64` in units of 2^-32, so that
//! [`COST_ONE`] stands for 1.0. Costs are added along a path and the path
//! with the largest sum wins: a larger cost is a better one. Stored costs
//! stay within [`COST_MAX`] in size, which leaves room to add a few of them
//! in an `i64`; the sum along a whole path is kept in an `i128`.
use vstd::prelude::*;

verus! {

/// The cost that stands for 1.0.
pub const COST_ONE: i64 = 0x1_0000_0000;

/// The largest size of a stored cost: 32768.0.
pub const COST_MAX: i64 = 0x8000_0000_0000;

/// What an unknown word costs beyond the default cost of the model: 2.0.
pub const PENALTY_UNKNOWN: i64 = 0x2_0000_0000;

/// The largest bonus that the user's history gives one word or pair: 64.0.
pub const BONUS_MAX: i64 = 0x40_0000_0000;

/// Whether `c` may be stored as a cost.
pub open spec fn cost_in_range(c: int) -> bool {
    -COST_MAX <= c <= COST_MAX
}

/// Half of `c`, rounded towards zero: the weight of the back-off from a
/// missing bigram to the unigram cost.
pub open spec fn spec_back_off(c: int) -> int {
    if c >= 0 {
        c / 2
    } else {
        -((-c) / 2)
    }
}

/// Half of `c`, rounded towards zero.
pub fn back_off(c: i64) -> (r: i64)
    ensures
        r == spec_back_off(c as int),
{
    c / 2
}

} // verus!
