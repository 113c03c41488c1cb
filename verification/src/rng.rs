//! Random sampling, through the rand crate.
//!
//! Word selection and letter sampling draw from a process-local random
//! source. Nothing is promised about which value comes back, only the range
//! it lies in; every caller is verified for all values in that range.

use vstd::prelude::*;

verus! {

/// Relies on rand's `Rng::gen_range` over `0..len`: the range is non-empty
/// because `len >= 1`, so the call does not panic and the sample is below
/// `len`.
#[verifier::external_body]
pub(crate) fn rand_index(len: usize) -> (r: usize)
    requires
        len >= 1,
    ensures
        r < len,
{
    rand::Rng::gen_range(&mut rand::thread_rng(), 0..len)
}

/// Relies on rand's `Rng::gen_range` over the non-empty range `0..=max`: the
/// sample is at most `max`.
#[verifier::external_body]
pub(crate) fn rand_scalar(max: u16) -> (r: u16)
    ensures
        r <= max,
{
    rand::Rng::gen_range(&mut rand::thread_rng(), 0..=max)
}

/// Relies on rand's `Rng::gen` for `bool`: a fair coin flip. Nothing is
/// promised of the outcome.
#[verifier::external_body]
pub(crate) fn rand_coin() -> bool {
    rand::Rng::gen::<bool>(&mut rand::thread_rng())
}

} // verus!
