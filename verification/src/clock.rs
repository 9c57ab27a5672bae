//! Spans of time and points in time, as plain numbers.
//!
//! The engine has no clock of its own. Its caller hands in one, or what it read
//! from one.
use vstd::prelude::*;

verus! {

/// Nanoseconds in a second.
pub const NANOS_PER_SEC: u32 = 1_000_000_000;

/// Nanoseconds in a millisecond.
pub const NANOS_PER_MILLI: u32 = 1_000_000;

/// A span of time: whole seconds and the nanoseconds beyond them. Its view is
/// the span in nanoseconds.
#[derive(Clone, Copy, Debug)]
pub struct Duration {
    secs: u64,
    nanos: u32,
}

impl View for Duration {
    type V = nat;

    closed spec fn view(&self) -> nat {
        (self.secs * NANOS_PER_SEC + self.nanos) as nat
    }
}

impl Duration {
    #[verifier::type_invariant]
    spec fn below_a_second(self) -> bool {
        self.nanos < NANOS_PER_SEC
    }

    /// A span of `secs` seconds and `subsec_nanos` nanoseconds.
    pub fn new(secs: u64, subsec_nanos: u32) -> (span: Duration)
        requires
            subsec_nanos < NANOS_PER_SEC,
        ensures
            span@ == secs * NANOS_PER_SEC + subsec_nanos,
    {
        Duration { secs, nanos: subsec_nanos }
    }

    /// A span of `secs` seconds.
    pub fn from_secs(secs: u64) -> (span: Duration)
        ensures
            span@ == secs * NANOS_PER_SEC,
    {
        Duration { secs, nanos: 0 }
    }

    /// A span of `nanos` nanoseconds.
    pub fn from_nanos(nanos: u64) -> (span: Duration)
        ensures
            span@ == nanos,
    {
        let per_sec: u64 = NANOS_PER_SEC as u64;
        Duration { secs: nanos / per_sec, nanos: (nanos % per_sec) as u32 }
    }

    /// The whole seconds in the span.
    pub fn as_secs(&self) -> (secs: u64)
        ensures
            secs == self@ / NANOS_PER_SEC as nat,
    {
        proof {
            use_type_invariant(self);
        }
        self.secs
    }

    /// The whole milliseconds in the span.
    pub fn as_millis(&self) -> (millis: u128)
        ensures
            millis == self@ / NANOS_PER_MILLI as nat,
    {
        proof {
            use_type_invariant(self);
        }
        let secs: u128 = self.secs as u128;
        assert(secs * 1_000 + 1_000 <= u128::MAX);
        secs * 1_000 + (self.nanos / NANOS_PER_MILLI) as u128
    }

    /// The nanoseconds in the span.
    pub fn as_nanos(&self) -> (nanos: u128)
        ensures
            nanos == self@,
    {
        let secs: u128 = self.secs as u128;
        assert(secs * 1_000_000_000 + u32::MAX <= u128::MAX);
        secs * 1_000_000_000 + self.nanos as u128
    }
}

/// A point in time: the nanoseconds since some origin that all points share.
/// Its view is that number.
#[derive(Clone, Copy, Debug)]
pub struct Instant {
    nanos: u64,
}

impl View for Instant {
    type V = nat;

    closed spec fn view(&self) -> nat {
        self.nanos as nat
    }
}

/// The nanoseconds from `earlier` to `now`; none if `earlier` lies ahead.
pub open spec fn elapsed(earlier: nat, now: nat) -> nat {
    if earlier <= now {
        (now - earlier) as nat
    } else {
        0
    }
}

/// `time` is a time that `clock` may tell.
pub open spec fn tells<C: Fn() -> Instant>(clock: C, time: Instant) -> bool {
    call_ensures(clock, (), time)
}

impl Instant {
    /// The point `nanos` nanoseconds after the origin.
    pub fn from_nanos(nanos: u64) -> (point: Instant)
        ensures
            point@ == nanos,
    {
        Instant { nanos }
    }

    /// The nanoseconds from the origin to this point.
    pub fn as_nanos(&self) -> (nanos: u64)
        ensures
            nanos == self@,
    {
        self.nanos
    }

    /// The span from `earlier` to this point; empty if `earlier` lies ahead.
    pub fn duration_since(&self, earlier: Instant) -> (span: Duration)
        ensures
            span@ == elapsed(earlier@, self@),
            span@ <= u64::MAX,
    {
        Duration::from_nanos(self.nanos.saturating_sub(earlier.nanos))
    }
}

} // verus!
