//! Saturating counters. Traffic and stream statistics only ever grow; they
//! clamp at the top of their type instead of wrapping or panicking.

use vstd::prelude::*;

verus! {

/// `a + b` clamped to `u64::MAX`.
pub open spec fn spec_sat_add64(a: u64, b: u64) -> u64 {
    if a + b > u64::MAX {
        u64::MAX
    } else {
        (a + b) as u64
    }
}

/// `a + b` clamped to `u32::MAX`.
pub open spec fn spec_sat_add32(a: u32, b: u32) -> u32 {
    if a + b > u32::MAX {
        u32::MAX
    } else {
        (a + b) as u32
    }
}

/// Saturating 64-bit addition.
pub fn sat_add64(a: u64, b: u64) -> (r: u64)
    ensures
        r == spec_sat_add64(a, b),
{
    if a > u64::MAX - b {
        u64::MAX
    } else {
        a + b
    }
}

/// Saturating 32-bit addition.
pub fn sat_add32(a: u32, b: u32) -> (r: u32)
    ensures
        r == spec_sat_add32(a, b),
{
    if a > u32::MAX - b {
        u32::MAX
    } else {
        a + b
    }
}

} // verus!
