//! Lengths of time, to the nanosecond.

use vstd::prelude::*;

verus! {

/// The nanoseconds of a second.
pub const SECOND_NANOS: u32 = 1_000_000_000;

/// A length of time: seconds, and nanoseconds behind them.
#[derive(Clone, Copy, Debug, PartialEq, Eq, Structural)]
pub struct Span {
    secs: u64,
    nanos: u32,
}

impl View for Span {
    type V = nat;

    /// The nanoseconds in all.
    closed spec fn view(&self) -> nat {
        (self.secs * SECOND_NANOS + self.nanos) as nat
    }
}

/// The whole seconds in so many nanoseconds.
pub open spec fn whole_seconds(nanos: nat) -> nat {
    nanos / (SECOND_NANOS as nat)
}

/// The time between two points in time; none where the first is the later one.
pub open spec fn time_between(from: nat, to: nat) -> nat {
    if to >= from {
        (to - from) as nat
    } else {
        0
    }
}

/// A length of time that may be known.
pub open spec fn span_of(t: Option<Span>) -> Option<nat> {
    match t {
        Some(t) => Some(t@),
        None => None,
    }
}

impl Span {
    #[verifier::type_invariant]
    spec fn well_formed(self) -> bool {
        self.nanos < SECOND_NANOS
    }

    /// Seconds, and nanoseconds behind them.
    pub fn new(secs: u64, nanos: u32) -> (r: Span)
        requires
            nanos < SECOND_NANOS,
        ensures
            r@ == secs * SECOND_NANOS + nanos,
    {
        Span { secs, nanos }
    }

    /// So many seconds.
    pub fn from_secs(secs: u64) -> (r: Span)
        ensures
            r@ == secs * SECOND_NANOS,
    {
        Span { secs, nanos: 0 }
    }

    /// So many milliseconds.
    pub fn from_millis(millis: u64) -> (r: Span)
        ensures
            r@ == millis * 1_000_000,
    {
        Span { secs: millis / 1000, nanos: (millis % 1000) as u32 * 1_000_000 }
    }

    /// The whole seconds.
    pub fn as_secs(&self) -> (r: u64)
        ensures
            r == whole_seconds(self@),
    {
        proof {
            use_type_invariant(*self);
        }
        self.secs
    }

    /// The nanoseconds behind the whole seconds.
    pub fn subsec_nanos(&self) -> (r: u32)
        ensures
            r == self@ % (SECOND_NANOS as nat),
    {
        proof {
            use_type_invariant(*self);
        }
        self.nanos
    }

    /// This time is longer than the other.
    pub fn exceeds(&self, other: &Span) -> (r: bool)
        ensures
            r == (self@ > other@),
    {
        proof {
            use_type_invariant(*self);
            use_type_invariant(*other);
        }
        self.secs > other.secs || (self.secs == other.secs && self.nanos > other.nanos)
    }

    /// What this time is longer than the other; nothing where it is shorter.
    pub fn beyond(&self, other: &Span) -> (r: Span)
        ensures
            r@ == time_between(other@, self@),
    {
        proof {
            use_type_invariant(*self);
            use_type_invariant(*other);
        }
        if other.exceeds(self) {
            Span { secs: 0, nanos: 0 }
        } else if self.nanos < other.nanos {
            Span { secs: self.secs - other.secs - 1, nanos: SECOND_NANOS - other.nanos + self.nanos }
        } else {
            Span { secs: self.secs - other.secs, nanos: self.nanos - other.nanos }
        }
    }
}

} // verus!
