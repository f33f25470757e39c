//! Silent intervals between transmissions: some protocols (such as MODBUS) require the line to be
//! quiet for a while before each write.
use vstd::prelude::*;

use std::time::{Duration, Instant};

verus! {

#[verifier::external_type_specification]
#[verifier::external_body]
pub struct ExInstant(std::time::Instant);

/// `Instant::now`: the current time, which nothing here states.
#[verifier::external_body]
fn instant_now() -> Instant {
    Instant::now()
}

/// `Instant::elapsed`: the time since `t`, which depends on the clock; nothing is stated of it.
#[verifier::external_body]
fn elapsed_since(t: &Instant) -> Duration {
    t.elapsed()
}

/// The length of a duration in whole nanoseconds, as `Duration::as_nanos` gives it.
pub uninterp spec fn duration_length(d: Duration) -> u128;

/// `Duration::as_nanos`: the length of `d` in whole nanoseconds, which depends on `d` alone.
#[verifier::external_body]
fn duration_nanos(d: &Duration) -> (r: u128)
    ensures
        r == duration_length(*d),
{
    d.as_nanos()
}

/// How long the line must stay silent before the next write, when `elapsed` nanoseconds have
/// passed since the last write and the silent interval is `interval` nanoseconds.
pub open spec fn silence_left(interval: u128, elapsed: u128) -> u128 {
    if elapsed < interval {
        (interval - elapsed) as u128
    } else {
        0
    }
}

/// A silent interval of a fixed length, counted from the last write.
pub struct SilentInterval {
    interval: u128,
    last_write: Instant,
}

impl SilentInterval {
    /// The length of the silent interval, in nanoseconds.
    pub closed spec fn interval(&self) -> u128 {
        self.interval
    }

    /// A silent interval of the given length, counted from now.
    pub fn new(duration: Duration) -> (r: SilentInterval)
        ensures
            r.interval() == duration_length(duration),
    {
        SilentInterval { interval: duration_nanos(&duration), last_write: instant_now() }
    }

    /// How long the line must still stay silent when `elapsed` nanoseconds have passed since
    /// the last write.
    pub fn wait_after(&self, elapsed: u128) -> (r: u128)
        ensures
            r == silence_left(self.interval(), elapsed),
    {
        if elapsed < self.interval {
            self.interval - elapsed
        } else {
            0
        }
    }

    /// How long the line must still stay silent now: the interval less the time `d` that has
    /// passed since the last write, or nothing once the whole interval has passed. The time `d`
    /// is a reading of the clock, which nothing names; what is stated is that the result is the
    /// silence left after some such time.
    pub fn remaining(&self) -> (r: u128)
        ensures
            r <= self.interval(),
            exists|d: Duration| r == silence_left(self.interval(), #[trigger] duration_length(d)),
    {
        let d = elapsed_since(&self.last_write);
        let elapsed = duration_nanos(&d);
        let r = self.wait_after(elapsed);
        assert(r == silence_left(self.interval(), duration_length(d)));
        r
    }

    /// Count the next interval from now, after a write.
    pub fn mark_write(&mut self)
        ensures
            final(self).interval() == old(self).interval(),
    {
        self.last_write = instant_now();
    }
}

} // verus!
