use vstd::prelude::*;

verus! {

/// An instant in UTC: whole seconds since the Unix epoch and the nanoseconds past them.
#[derive(Clone, Copy, PartialEq, Eq, Structural, Hash, Debug)]
pub struct Timestamp {
    pub secs: i64,
    pub nanos: u32,
}

/// Nanoseconds per second.
pub const NANOS_PER_SEC: i128 = 1_000_000_000i128;

impl Timestamp {
    /// The instant as a count of nanoseconds since the epoch.
    pub open spec fn total_nanos(self) -> int {
        self.secs * 1_000_000_000 + self.nanos
    }

    pub fn new(secs: i64, nanos: u32) -> (t: Timestamp)
        ensures
            t.secs == secs,
            t.nanos == nanos,
    {
        Timestamp { secs, nanos }
    }
}

/// The time that has passed from `earlier` to `now`, as a non-negative span: an `earlier`
/// that lies after `now` counts as no time at all.
pub open spec fn elapsed_nanos(now: Timestamp, earlier: Timestamp) -> int {
    if now.total_nanos() >= earlier.total_nanos() {
        now.total_nanos() - earlier.total_nanos()
    } else {
        0
    }
}

/// Nanoseconds elapsed from `earlier` to `now`, clamped at zero.
pub fn elapsed_since(now: Timestamp, earlier: Timestamp) -> (span: u128)
    ensures
        span == elapsed_nanos(now, earlier),
{
    let a: i128 = now.secs as i128 * NANOS_PER_SEC + now.nanos as i128;
    let b: i128 = earlier.secs as i128 * NANOS_PER_SEC + earlier.nanos as i128;
    if a >= b {
        (a - b) as u128
    } else {
        0
    }
}

} // verus!
