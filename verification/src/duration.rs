//! Spans of time.

use vstd::prelude::*;

verus! {

/// A span of time in whole nanoseconds, below 2^64 seconds.
#[derive(Clone, Copy, Debug, PartialEq, Eq, Structural)]
pub struct Duration {
    nanos: u128,
}

/// The longest span: one nanosecond less than 2^64 seconds.
pub const MAX_NANOS: u128 = 18_446_744_073_709_551_615_999_999_999;

impl View for Duration {
    type V = nat;

    closed spec fn view(&self) -> nat {
        self.nanos as nat
    }
}

impl Duration {
    #[verifier::type_invariant]
    closed spec fn inv(self) -> bool {
        self.nanos <= MAX_NANOS
    }

    /// A span of whole seconds.
    pub fn from_secs(secs: u64) -> (span: Duration)
        ensures
            span@ == secs * 1_000_000_000,
    {
        Duration { nanos: secs as u128 * 1_000_000_000 }
    }

    /// A span of whole milliseconds.
    pub fn from_millis(millis: u64) -> (span: Duration)
        ensures
            span@ == millis * 1_000_000,
    {
        Duration { nanos: millis as u128 * 1_000_000 }
    }

    /// A span of whole nanoseconds; one that is too long becomes the longest.
    pub fn from_nanos(nanos: u128) -> (span: Duration)
        ensures
            span@ == if nanos <= MAX_NANOS {
                nanos as nat
            } else {
                MAX_NANOS as nat
            },
    {
        if nanos <= MAX_NANOS {
            Duration { nanos }
        } else {
            Duration { nanos: MAX_NANOS }
        }
    }

    /// The length of the span in nanoseconds.
    pub fn as_nanos(&self) -> (nanos: u128)
        ensures
            nanos == self@,
            nanos <= MAX_NANOS,
    {
        proof {
            use_type_invariant(self);
        }
        self.nanos
    }

    /// A multiple of the span; one that is too long becomes the longest.
    pub fn saturating_mul(self, factor: u32) -> (span: Duration)
        ensures
            span@ == if self@ * factor <= MAX_NANOS {
                (self@ * factor) as nat
            } else {
                MAX_NANOS as nat
            },
    {
        proof {
            use_type_invariant(&self);
            assert(self.nanos * factor <= MAX_NANOS * u32::MAX) by (nonlinear_arith)
                requires
                    0 <= self.nanos <= MAX_NANOS,
                    0 <= factor <= u32::MAX,
            ;
        }
        Duration::from_nanos(self.nanos * factor as u128)
    }

    /// The shorter of two spans.
    pub fn min(self, other: Duration) -> (span: Duration)
        ensures
            span@ == if self@ <= other@ {
                self@
            } else {
                other@
            },
            other@ <= MAX_NANOS,
    {
        proof {
            use_type_invariant(&other);
        }
        if self.nanos <= other.nanos {
            self
        } else {
            other
        }
    }

    /// The longer of two spans.
    pub fn max(self, other: Duration) -> (span: Duration)
        ensures
            span@ == if self@ >= other@ {
                self@
            } else {
                other@
            },
    {
        if self.nanos >= other.nanos {
            self
        } else {
            other
        }
    }
}

} // verus!
