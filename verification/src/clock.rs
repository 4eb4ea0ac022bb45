//! Monotonic time, behind trusted wrappers. The engine keeps a fixed anchor
//! instant and measures microseconds from it; all decisions about deadlines
//! are verified functions over those microsecond readings.

use vstd::prelude::*;
use crate::stats::sat_add;
use crate::stats::counter_add;

verus! {

#[verifier::external_type_specification]
#[verifier::external_body]
pub struct ExInstant(std::time::Instant);

/// Relies on std::time::Instant::now: a reading of the monotonic clock, not
/// affected by wall-clock adjustments. Nothing is promised of its value.
#[verifier::external_body]
pub(crate) fn instant_now() -> (r: std::time::Instant) {
    std::time::Instant::now()
}

/// Relies on std::time::Instant::duration_since, which returns the time from
/// `earlier` to `later` and zero when `later` is the earlier one; the result
/// is converted to whole microseconds, truncated to 64 bits. Nothing is
/// promised of its value.
#[verifier::external_body]
pub(crate) fn micros_since(earlier: &std::time::Instant, later: &std::time::Instant) -> (r: u64) {
    later.duration_since(*earlier).as_micros() as u64
}

/// Relies on std::time::Instant implementing Copy: returns the same instant.
#[verifier::external_body]
pub(crate) fn copy_instant(t: &std::time::Instant) -> (r: std::time::Instant)
    ensures
        r == *t,
{
    *t
}

/// Whether a reading of the clock lies strictly past a deadline.
pub open spec fn spec_past(now: u64, deadline: u64) -> bool {
    now > deadline
}

pub fn is_past(now: u64, deadline: u64) -> (r: bool)
    ensures
        r == spec_past(now, deadline),
{
    now > deadline
}

/// A one-shot timer: true once the monotonic clock passes its deadline.
pub struct Timeout {
    pub anchor: std::time::Instant,
    pub deadline_micros: u64,
}

impl Timeout {
    /// Poll the timer: reads the clock and compares it to the deadline with
    /// `is_past`. The reading itself is trusted; the comparison is verified.
    pub fn check(&self) -> bool {
        let t: u64 = micros_since(&self.anchor, &instant_now());
        is_past(t, self.deadline_micros)
    }
}

/// A throttle: true at most once per interval, advancing its deadline by the
/// interval from the observed firing moment.
pub struct Throttle {
    pub anchor: std::time::Instant,
    pub deadline_micros: u64,
    pub interval_micros: u64,
}

impl Throttle {
    /// Poll the throttle. When it does not fire, nothing changes; when it
    /// fires, some clock reading lay strictly past the old deadline and the
    /// new deadline is that reading plus the interval — so two consecutive
    /// fires are at least the interval apart (up to counter saturation).
    pub fn check(&mut self) -> (r: bool)
        ensures
            final(self).interval_micros == old(self).interval_micros,
            final(self).anchor == old(self).anchor,
            !r ==> *final(self) == *old(self),
            r ==> exists|t: u64|
                t > old(self).deadline_micros && final(self).deadline_micros == sat_add(
                    t,
                    old(self).interval_micros,
                ),
            r ==> final(self).deadline_micros > old(self).deadline_micros,
    {
        let t: u64 = micros_since(&self.anchor, &instant_now());
        if is_past(t, self.deadline_micros) {
            self.deadline_micros = counter_add(t, self.interval_micros);
            proof {
                assert(sat_add(t, self.interval_micros) >= t);
                assert(t > old(self).deadline_micros && final(self).deadline_micros == sat_add(
                    t,
                    old(self).interval_micros,
                ));
            }
            true
        } else {
            false
        }
    }
}

} // verus!
