//! Access to the pseudo-random generator of `quad_rand`.
//!
//! The generator keeps hidden global state, so two calls with the same
//! arguments may give different values; the contracts only say what holds of
//! every outcome.

use vstd::prelude::*;

verus! {

/// Calls `quad_rand::rand`, which steps the crate's global PCG generator and
/// returns its 32-bit output. The value depends on hidden state, so nothing
/// is promised about it.
#[verifier::external_body]
pub(crate) fn rand_u32() -> u32 {
    quad_rand::rand()
}

/// Calls `quad_rand::gen_range::<usize>(low, high)`. Its source scales a
/// `rand()` draw `r` as `low + (high - low) * (r / 2^32)` in `f64` and
/// truncates; for ranges of at most 2^16 every step of that computation is
/// exact in `f64`, so the result lies in `[low, high)`. Which value of the
/// range comes back depends on the hidden generator state and is not stated.
#[verifier::external_body]
pub(crate) fn gen_range_usize(low: usize, high: usize) -> (r: usize)
    requires
        low < high,
        high <= 65536,
    ensures
        low <= r < high,
{
    quad_rand::gen_range(low, high)
}

/// Calls `quad_rand::gen_range::<u32>(0, high)`. Its source computes
/// `0.0 + high * (r / 2^32)` in `f64` for a `rand()` draw `r` and truncates;
/// since `r / 2^32 <= 1 - 2^-32`, the rounded product stays below `high`,
/// so the result lies in `[0, high)`. Which value comes back depends on the
/// hidden generator state and is not stated.
#[verifier::external_body]
pub(crate) fn gen_below_u32(high: u32) -> (r: u32)
    requires
        0 < high,
    ensures
        r < high,
{
    quad_rand::gen_range(0u32, high)
}

} // verus!
