//! Randomness, behind trusted wrappers. Nothing more is assumed of a draw
//! than the range it falls in; every decision the engine takes is verified
//! for all values a draw may produce.

use vstd::prelude::*;

use rand::Rng;

verus! {

/// Relies on `rand::Rng::gen_range` over the half-open integer range
/// `0..n`: the range is non-empty because `n >= 1`, so the call does not
/// panic, and the result lies strictly below `n`.
#[verifier::external_body]
pub(crate) fn random_below(n: u64) -> (r: u64)
    requires
        1 <= n,
    ensures
        r < n,
{
    rand::thread_rng().gen_range(0..n)
}

/// Relies on `rand::Rng::gen_range` over the closed integer range
/// `lo..=hi`: the range is non-empty because `lo <= hi`, so the call does
/// not panic, and the result lies inside it.
#[verifier::external_body]
pub(crate) fn random_between(lo: i64, hi: i64) -> (r: i64)
    requires
        lo <= hi,
    ensures
        lo <= r <= hi,
{
    rand::thread_rng().gen_range(lo..=hi)
}

} // verus!
