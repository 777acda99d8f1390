//! Spans of time.

use vstd::prelude::*;

verus! {

/// The number of nanoseconds in a second.
pub const NANOS_PER_SEC: u32 = 1_000_000_000;

/// A span of time, to the nanosecond.
#[derive(Debug, Clone, Copy, PartialEq, Eq, Structural)]
pub struct Duration {
    secs: u64,
    nanos: u32,
}

impl View for Duration {
    type V = nat;

    /// The span in nanoseconds.
    closed spec fn view(&self) -> nat {
        (self.secs * NANOS_PER_SEC + self.nanos) as nat
    }
}

/// A span of whole seconds, in nanoseconds.
pub open spec fn seconds(n: nat) -> nat {
    n * 1_000_000_000
}

impl Duration {
    #[verifier::type_invariant]
    spec fn in_range(self) -> bool {
        self.nanos < NANOS_PER_SEC
    }

    /// A span of whole seconds.
    pub fn from_secs(secs: u64) -> (r: Duration)
        ensures
            r@ == seconds(secs as nat),
    {
        Duration { secs, nanos: 0 }
    }

    /// A span of whole milliseconds.
    pub fn from_millis(millis: u64) -> (r: Duration)
        ensures
            r@ == millis as nat * 1_000_000,
    {
        Duration { secs: millis / 1000, nanos: (millis % 1000) as u32 * 1_000_000 }
    }

    /// A span of seconds and nanoseconds; whole seconds among the nanoseconds
    /// are cut off.
    pub fn new(secs: u64, nanos: u32) -> (r: Duration)
        ensures
            r@ == seconds(secs as nat) + nanos as nat % 1_000_000_000,
    {
        Duration { secs, nanos: nanos % NANOS_PER_SEC }
    }

    /// The whole seconds of the span.
    pub fn as_secs(&self) -> (r: u64)
        ensures
            r == self@ / 1_000_000_000,
    {
        proof {
            use_type_invariant(self);
        }
        self.secs
    }

    /// What is left of the span beside the whole seconds.
    pub fn subsec_nanos(&self) -> (r: u32)
        ensures
            r == self@ % 1_000_000_000,
            r < 1_000_000_000,
    {
        proof {
            use_type_invariant(self);
        }
        self.nanos
    }

    /// Whether the span is empty.
    pub fn is_zero(&self) -> (r: bool)
        ensures
            r == (self@ == 0),
    {
        self.secs == 0 && self.nanos == 0
    }

    /// Whether the span is at most `other`.
    pub fn at_most(&self, other: &Duration) -> (r: bool)
        ensures
            r == (self@ <= other@),
    {
        proof {
            use_type_invariant(self);
            use_type_invariant(other);
        }
        self.secs < other.secs || (self.secs == other.secs && self.nanos <= other.nanos)
    }

    /// The span without `other`; empty where `other` is longer.
    pub fn saturating_sub(&self, other: &Duration) -> (r: Duration)
        ensures
            r@ == if self@ <= other@ {
                0
            } else {
                (self@ - other@) as nat
            },
    {
        proof {
            use_type_invariant(self);
            use_type_invariant(other);
        }
        if self.at_most(other) {
            Duration { secs: 0, nanos: 0 }
        } else if self.nanos >= other.nanos {
            Duration { secs: self.secs - other.secs, nanos: self.nanos - other.nanos }
        } else {
            Duration {
                secs: self.secs - other.secs - 1,
                nanos: NANOS_PER_SEC - other.nanos + self.nanos,
            }
        }
    }
}

} // verus!
