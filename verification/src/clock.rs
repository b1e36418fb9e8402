//! Monotonic-clock readings for the latency field of a result page. The
//! engine promises nothing about elapsed times; the wrappers exist so the
//! pipelines can report how long a page took.

use vstd::prelude::*;

verus! {

#[verifier::external_type_specification]
#[verifier::external_body]
pub struct ExInstant(std::time::Instant);

/// Relies on `std::time::Instant::now` (std): an opaque reading of the
/// monotonic clock; nothing is promised of its value.
#[verifier::external_body]
pub(crate) fn instant_now() -> std::time::Instant {
    std::time::Instant::now()
}

/// Relies on `std::time::Instant::elapsed` (std): the time since the given
/// reading; nothing is promised of its value.
#[verifier::external_body]
pub(crate) fn elapsed_since(start: &std::time::Instant) -> core::time::Duration {
    start.elapsed()
}

/// Relies on `core::time::Duration::as_millis` (std): the duration in whole
/// milliseconds; nothing is promised of its value.
#[verifier::external_body]
pub(crate) fn duration_millis(d: &core::time::Duration) -> u128 {
    d.as_millis()
}

/// Milliseconds since a clock reading, saturated to `u64`.
pub(crate) fn elapsed_ms(start: &std::time::Instant) -> u64 {
    let d = elapsed_since(start);
    let ms = duration_millis(&d);
    if ms > u64::MAX as u128 {
        u64::MAX
    } else {
        ms as u64
    }
}

} // verus!
