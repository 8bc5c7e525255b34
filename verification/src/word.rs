//! Specifications of the std integer methods used here that vstd leaves out.
use vstd::prelude::*;
use vstd::arithmetic::power2::pow2;

verus! {

/// `u32::overflowing_sub` returns the wrapping difference and whether the
/// subtraction borrowed (std documents it as `(self.wrapping_sub(rhs), self < rhs)`).
pub assume_specification[ u32::overflowing_sub ](x: u32, y: u32) -> (r: (u32, bool))
    ensures
        r.1 == (x < y),
        r.0 == (if x < y { x - y + 0x1_0000_0000 } else { x - y }),
;

/// `u64::wrapping_neg` returns `0 - self` modulo `2^64`.
pub assume_specification[ u64::wrapping_neg ](x: u64) -> (r: u64)
    ensures
        r == (if x == 0 { 0 } else { 0x1_0000_0000_0000_0000 - x }),
;

/// `u32::ilog2` returns the base-2 logarithm rounded down, and panics on zero.
pub assume_specification[ u32::ilog2 ](x: u32) -> (r: u32)
    requires
        x > 0,
    ensures
        pow2(r as nat) <= x < pow2(r as nat + 1),
;

} // verus!
