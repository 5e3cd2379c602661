//! Random draws, taken on trust from the `rand` crate.
//!
//! Every draw goes through one of the wrappers below; the verified logic
//! takes the drawn value as an argument and is proved for every value the
//! wrapper may hand back.

use vstd::prelude::*;
use rand::Rng;

verus! {

/// Relies on rand::rngs::ThreadRng::gen_range over `0..n`: the result is a
/// uniformly drawn index below `n`.  The empty range panics, so `n` must be
/// positive.
#[verifier::external_body]
pub fn rand_index(n: usize) -> (r: usize)
    requires
        n > 0,
    ensures
        r < n,
{
    rand::thread_rng().gen_range(0..n)
}

/// Relies on rand::rngs::ThreadRng::gen_range over `0..n`: the result is a
/// uniformly drawn value below `n`.  The empty range panics, so `n` must be
/// positive.
#[verifier::external_body]
pub fn rand_u64_below(n: u64) -> (r: u64)
    requires
        n > 0,
    ensures
        r < n,
{
    rand::thread_rng().gen_range(0..n)
}

/// Relies on rand::rngs::ThreadRng::gen_range over `0..n`: the result is a
/// uniformly drawn value below `n`.  The empty range panics, so `n` must be
/// positive.
#[verifier::external_body]
pub fn rand_u128_below(n: u128) -> (r: u128)
    requires
        n > 0,
    ensures
        r < n,
{
    rand::thread_rng().gen_range(0..n)
}

} // verus!
