//! The random source used to sample spawns and goals.
//!
//! The draw itself comes from the `rand` crate and nothing is assumed
//! of its value; everything that depends on a draw is verified for
//! every value the draw could take.

use vstd::prelude::*;

verus! {

/// Relies on `rand::random`: a fresh draw from the thread-local
/// generator. Nothing is promised of the value.
pub assume_specification<T>[ rand::random::<T> ]() -> (r: T)
    where
        rand::distr::StandardUniform: rand::distr::Distribution<T>,
;

/// Maps a raw 64-bit draw into the inclusive range `[lo, hi]`, by the
/// draw's remainder modulo the width of the range.
pub fn sample_in_range(lo: i64, hi: i64, draw: u64) -> (r: i64)
    requires
        lo < hi,
    ensures
        r as int == lo + (draw as int) % (hi - lo + 1),
        lo <= r <= hi,
{
    let width: u128 = (((hi as i128) - (lo as i128)) as u128) + 1;
    let off: u128 = (draw as u128) % width;
    ((lo as i128) + (off as i128)) as i64
}

} // verus!
