//! Arithmetic on the wrapping 32-bit millisecond clock.
//!
//! Time stamps wrap at 2^32. Two stamps are compared by their wrapped
//! difference: `a` is earlier than `b` when `a - b`, taken modulo 2^32, is at
//! least [`TIME_OVERFLOW`].

use vstd::prelude::*;

verus! {

/// Wrapped differences at or above this value count as negative.
pub const TIME_OVERFLOW: u32 = 86400000;

/// `a - b` modulo 2^32.
pub open spec fn wrapped_difference(a: u32, b: u32) -> int {
    if a >= b {
        a - b
    } else {
        a - b + 0x1_0000_0000
    }
}

/// Whether time stamp `a` lies before time stamp `b`.
pub open spec fn spec_time_less(a: u32, b: u32) -> bool {
    wrapped_difference(a, b) >= TIME_OVERFLOW
}

/// The distance between two time stamps, whichever comes first.
pub open spec fn spec_time_difference(a: u32, b: u32) -> int {
    if spec_time_less(a, b) {
        wrapped_difference(b, a)
    } else {
        wrapped_difference(a, b)
    }
}

/// Whether time stamp `a` lies before time stamp `b`.
pub fn time_less(a: u32, b: u32) -> (r: bool)
    ensures
        r == spec_time_less(a, b),
{
    a.wrapping_sub(b) >= TIME_OVERFLOW
}

/// The distance between two time stamps, whichever comes first.
pub fn time_difference(a: u32, b: u32) -> (r: u32)
    ensures
        r == spec_time_difference(a, b),
{
    if time_less(a, b) {
        b.wrapping_sub(a)
    } else {
        a.wrapping_sub(b)
    }
}

} // verus!
