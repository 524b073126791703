//! Lengths of time.
use vstd::prelude::*;

verus! {

/// A length of time: whole seconds and the nanoseconds beyond them.
#[derive(Debug, Clone, Copy, PartialEq, Eq, Structural)]
pub struct Interval {
    pub secs: u64,
    pub nanos: u32,
}

impl View for Interval {
    type V = nat;

    /// The length in nanoseconds.
    open spec fn view(&self) -> nat {
        self.secs as nat * 1_000_000_000 + self.nanos as nat
    }
}

impl Interval {
    /// The nanoseconds are less than a second.
    pub open spec fn wf(&self) -> bool {
        self.nanos < 1_000_000_000
    }

    /// A length of seconds.
    pub fn from_secs(secs: u64) -> (r: Interval)
        ensures
            r.wf(),
            r@ == secs as nat * 1_000_000_000,
            r == (Interval { secs, nanos: 0 }),
    {
        Interval { secs, nanos: 0 }
    }

    /// A length of milliseconds.
    pub fn from_millis(millis: u64) -> (r: Interval)
        ensures
            r.wf(),
            r@ == millis as nat * 1_000_000,
    {
        let nanos: u32 = (millis % 1000) as u32 * 1_000_000;
        Interval { secs: millis / 1000, nanos }
    }

    /// Whether it is no time at all.
    pub fn is_zero(&self) -> (r: bool)
        ensures
            r == (self@ == 0),
    {
        self.secs == 0 && self.nanos == 0
    }

    /// Whether this is at least as long as `other`.
    pub fn at_least(&self, other: &Interval) -> (r: bool)
        requires
            self.wf(),
            other.wf(),
        ensures
            r == (self@ >= other@),
    {
        self.secs > other.secs || (self.secs == other.secs && self.nanos >= other.nanos)
    }

    /// What is left of this after `other`, or nothing.
    pub fn minus(&self, other: &Interval) -> (r: Interval)
        requires
            self.wf(),
            other.wf(),
        ensures
            r.wf(),
            r@ == if self@ >= other@ {
                (self@ - other@) as nat
            } else {
                0
            },
    {
        if !self.at_least(other) {
            return Interval { secs: 0, nanos: 0 };
        }
        if self.nanos >= other.nanos {
            Interval { secs: self.secs - other.secs, nanos: self.nanos - other.nanos }
        } else {
            Interval {
                secs: self.secs - other.secs - 1,
                nanos: 1_000_000_000 - other.nanos + self.nanos,
            }
        }
    }
}

} // verus!
