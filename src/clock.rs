use vstd::prelude::*;

verus! {

#[verifier::external_type_specification]
#[verifier::external_body]
pub struct ExInstant(std::time::Instant);

/// Relies on std::time::Instant::now: a reading of the monotonic clock.
/// Nothing is promised of the value.
pub assume_specification[ std::time::Instant::now ]() -> std::time::Instant;

/// Relies on std::time::Instant::elapsed: the time that has passed since the
/// reading. Nothing is promised of the value.
pub assume_specification[ std::time::Instant::elapsed ](i: &std::time::Instant) -> std::time::Duration;

/// Relies on core::time::Duration::as_nanos: the whole nanoseconds of a
/// duration. Nothing more is promised.
pub assume_specification[ core::time::Duration::as_nanos ](d: &core::time::Duration) -> u128;

} // verus!
