//! The wall clock, as far as a search reads it.

use std::time::{Duration, Instant};
use vstd::prelude::*;

verus! {

#[verifier::external_type_specification]
#[verifier::external_body]
pub struct ExInstant(Instant);

/// `Instant::now`: the present moment. Nothing is claimed of it.
#[verifier::external_body]
pub(crate) fn now() -> Instant {
    Instant::now()
}

/// `Instant::elapsed`: the time that has passed since a moment. Nothing is
/// claimed of it.
#[verifier::external_body]
pub(crate) fn elapsed(since: &Instant) -> Duration {
    since.elapsed()
}

/// `Duration::as_secs`: the whole seconds of a span. Nothing is claimed of
/// them.
#[verifier::external_body]
pub(crate) fn whole_seconds(span: &Duration) -> u64 {
    span.as_secs()
}

/// `Duration::as_millis`: the whole milliseconds of a span. Nothing is
/// claimed of them.
#[verifier::external_body]
pub(crate) fn whole_millis(span: &Duration) -> u128 {
    span.as_millis()
}

/// `Duration::from_secs` at 0: a span of no time. Nothing is claimed of it.
#[verifier::external_body]
pub(crate) fn no_time() -> Duration {
    Duration::from_secs(0)
}

/// `Duration::saturating_add`: the sum of two spans, or the longest span
/// where the sum has no room. Nothing is claimed of it.
#[verifier::external_body]
pub(crate) fn add_time(total: Duration, more: Duration) -> Duration {
    total.saturating_add(more)
}

} // verus!
