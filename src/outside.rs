//! The random-number generators and the clock that the search draws on.
use vstd::prelude::*;

verus! {

#[verifier::external_type_specification]
#[verifier::external_body]
pub struct ExRng(fastrand::Rng);

#[verifier::external_type_specification]
#[verifier::external_body]
pub struct ExInstant(std::time::Instant);

/// Relies on `fastrand::Rng::with_seed`: a generator whose stream the seed fixes.
pub assume_specification[ fastrand::Rng::with_seed ](seed: u64) -> fastrand::Rng;

/// Relies on `fastrand::Rng::new`: a generator seeded from the thread-local one.
pub assume_specification[ fastrand::Rng::new ]() -> fastrand::Rng;

/// Relies on `std::time::Instant::now`: the current time.
pub assume_specification[ std::time::Instant::now ]() -> std::time::Instant;

/// Relies on `std::time::Instant::elapsed`: the time since `start`.
pub assume_specification[ std::time::Instant::elapsed ](start: &std::time::Instant) -> std::time::Duration;

/// Relies on `fastrand::Rng::usize`: a value drawn from `0..n`, which must not be
/// empty (the call panics on an empty range).
#[verifier::external_body]
pub(crate) fn draw_below(rng: &mut fastrand::Rng, n: usize) -> (r: usize)
    requires
        n > 0,
    ensures
        r < n,
{
    rng.usize(0..n)
}

/// Relies on `fastrand::Rng::u128`: a value drawn from `0..n`, which must not be
/// empty (the call panics on an empty range).
#[verifier::external_body]
pub(crate) fn draw_below_wide(rng: &mut fastrand::Rng, n: u128) -> (r: u128)
    requires
        n > 0,
    ensures
        r < n,
{
    rng.u128(0..n)
}

/// Relies on `PartialOrd for std::time::Duration`: whether `spent` is at least `budget`.
#[verifier::external_body]
pub(crate) fn duration_at_least(spent: &std::time::Duration, budget: &std::time::Duration) -> bool {
    *spent >= *budget
}

/// Relies on `std::time::Duration::from_millis`: a duration of `ms` milliseconds.
#[verifier::external_body]
pub(crate) fn duration_from_millis(ms: u64) -> std::time::Duration {
    std::time::Duration::from_millis(ms)
}

} // verus!
