//! The wall clock: `web_time::Instant`, which is `std::time::Instant` on native targets and a
//! browser-backed substitute on wasm. Every reading depends on when it is taken, so the wrappers
//! below promise nothing about the values they return.
use vstd::prelude::*;

use std::time::Duration;
use web_time::Instant;

verus! {

/// A point in time as `web_time` measures it.
#[verifier::external_type_specification]
#[verifier::external_body]
pub struct ExInstant(Instant);

/// `web_time::Instant::now`: the current instant (no property stated: it depends on the time).
#[verifier::external_body]
pub(crate) fn instant_now() -> (now: Instant) {
    Instant::now()
}

/// `Instant::checked_add`: the instant `d` after `at`, or `None` when it is not representable.
/// Which of the two comes back depends on the platform's clock range, so nothing is stated.
#[verifier::external_body]
pub(crate) fn instant_checked_add(at: &Instant, d: Duration) -> (later: Option<Instant>) {
    at.checked_add(d)
}

/// `Instant >= Instant` (`PartialOrd::ge`): whether `a` is not earlier than `b`. Both are opaque
/// clock readings, so nothing is stated of the answer.
#[verifier::external_body]
pub(crate) fn instant_not_before(a: &Instant, b: &Instant) -> (not_before: bool) {
    a >= b
}

/// `Instant::elapsed`: the time since `start` (depends on the time; nothing stated).
#[verifier::external_body]
pub(crate) fn instant_elapsed(start: &Instant) -> (elapsed: Duration) {
    start.elapsed()
}

/// `Duration::as_nanos`: the whole nanoseconds of `d`. The result depends on `d` alone, which
/// this library only ever obtains from the clock, so nothing further is stated.
#[verifier::external_body]
pub(crate) fn duration_as_nanos(d: &Duration) -> (nanos: u128) {
    d.as_nanos()
}

} // verus!
