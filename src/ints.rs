//! Conversions between the integer widths that offsets and buffer lengths use.

use vstd::prelude::*;

verus! {

/// Widens a `usize` to a `u64`; no supported target has a wider `usize`.
pub fn usize_to_u64(n: usize) -> (r: u64)
    ensures
        r == n,
{
    n as u64
}

/// The smaller of a `u64` and a `usize`, as a `usize`; it always fits,
/// since it is at most `b`.
pub fn converting_min(a: u64, b: usize) -> (r: usize)
    ensures
        r == if a < b { a as int } else { b as int },
{
    if a < b as u64 {
        a as usize
    } else {
        b
    }
}

} // verus!
