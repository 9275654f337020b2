//! Durations and instants.
//!
//! [`Duration`] is a span of time counted in whole nanoseconds, with the
//! same range as `std::time::Duration` (up to `u64::MAX` seconds plus
//! 999 999 999 nanoseconds). [`Instant`] is the monotonic clock reading of
//! `std::time::Instant`; the library never looks inside one, it only asks
//! for the span between two of them.

use vstd::prelude::*;

verus! {

/// Largest number of nanoseconds a [`Duration`] can hold.
pub const MAX_NANOS: u128 = 18446744073709551615999999999u128;

/// Nanoseconds per second.
pub const NANOS_PER_SEC: u128 = 1000000000u128;

/// Nanoseconds per millisecond.
pub const NANOS_PER_MILLI: u128 = 1000000u128;

/// A span of time, counted in nanoseconds.
#[derive(Clone, Copy, Debug, PartialEq, Eq, Structural)]
pub struct Duration {
    nanos: u128,
}

impl View for Duration {
    type V = nat;

    closed spec fn view(&self) -> nat {
        self.nanos as nat
    }
}

impl Duration {
    /// A duration never exceeds [`MAX_NANOS`].
    #[verifier::type_invariant]
    spec fn in_range(self) -> bool {
        self.nanos <= MAX_NANOS
    }

    /// The zero-length span.
    pub fn zero() -> (d: Duration)
        ensures
            d@ == 0,
    {
        Duration { nanos: 0 }
    }

    /// A span of `nanos` nanoseconds.
    pub fn from_nanos(nanos: u64) -> (d: Duration)
        ensures
            d@ == nanos as nat,
    {
        Duration { nanos: nanos as u128 }
    }

    /// A span of `millis` milliseconds.
    pub fn from_millis(millis: u64) -> (d: Duration)
        ensures
            d@ == millis as nat * NANOS_PER_MILLI as nat,
            d@ <= MAX_NANOS,
    {
        assert(millis as u128 * NANOS_PER_MILLI <= MAX_NANOS) by (nonlinear_arith)
            requires millis <= u64::MAX;
        Duration { nanos: millis as u128 * NANOS_PER_MILLI }
    }

    /// A span of `secs` whole seconds.
    pub fn from_secs(secs: u64) -> (d: Duration)
        ensures
            d@ == secs as nat * NANOS_PER_SEC as nat,
            d@ <= MAX_NANOS,
    {
        assert(secs as u128 * NANOS_PER_SEC <= MAX_NANOS) by (nonlinear_arith)
            requires secs <= u64::MAX;
        Duration { nanos: secs as u128 * NANOS_PER_SEC }
    }

    /// A span of `nanos` nanoseconds given as a wide count; the count must
    /// lie within the range of a duration.
    pub fn from_nanos_u128(nanos: u128) -> (d: Duration)
        requires
            nanos <= MAX_NANOS,
        ensures
            d@ == nanos as nat,
    {
        Duration { nanos }
    }

    /// Whole nanoseconds in the span.
    pub fn as_nanos(&self) -> (n: u128)
        ensures
            n as nat == self@,
            n <= MAX_NANOS,
    {
        proof {
            use_type_invariant(self);
        }
        self.nanos
    }

    /// True for the zero-length span.
    pub fn is_zero(&self) -> (b: bool)
        ensures
            b == (self@ == 0),
    {
        self.nanos == 0
    }

    /// `self * k`; the product must lie within the range of a duration
    /// (`std::time::Duration` panics beyond it).
    pub fn mul_u32(&self, k: u32) -> (d: Duration)
        requires
            self@ * k <= MAX_NANOS,
        ensures
            d@ == self@ * k,
    {
        Duration { nanos: self.nanos * k as u128 }
    }

    /// `self + other`; the sum must lie within the range of a duration.
    pub fn add(&self, other: Duration) -> (d: Duration)
        requires
            self@ + other@ <= MAX_NANOS,
        ensures
            d@ == self@ + other@,
    {
        Duration { nanos: self.nanos + other.nanos }
    }

    /// The remainder of `self` after whole multiples of `period`; the
    /// period must not be zero.
    pub fn rem(&self, period: Duration) -> (d: Duration)
        requires
            period@ > 0,
        ensures
            d@ == self@ % period@,
    {
        proof {
            use_type_invariant(self);
            vstd::arithmetic::div_mod::lemma_mod_decreases(self.nanos as nat, period.nanos as nat);
        }
        Duration { nanos: self.nanos % period.nanos }
    }

    /// `self >= other`.
    pub fn ge(&self, other: Duration) -> (b: bool)
        ensures
            b == (self@ >= other@),
    {
        self.nanos >= other.nanos
    }

    /// `self - other`, or zero when `other` is the longer span.
    pub fn saturating_sub(&self, other: Duration) -> (d: Duration)
        ensures
            d@ == (if self@ >= other@ { self@ - other@ } else { 0 }),
    {
        proof {
            use_type_invariant(self);
        }
        if self.nanos >= other.nanos {
            Duration { nanos: self.nanos - other.nanos }
        } else {
            Duration { nanos: 0 }
        }
    }
}

/// The monotonic clock reading `std::time::Instant`; opaque to proofs.
#[verifier::external_type_specification]
#[verifier::external_body]
pub struct ExInstant(std::time::Instant);

/// Reads the monotonic clock (`std::time::Instant::now`). Nothing is
/// claimed of the reading: it depends on when the call is made.
#[verifier::external_body]
pub(crate) fn instant_now() -> std::time::Instant {
    std::time::Instant::now()
}

/// The span from `earlier` to `later`, or zero when `later` comes first
/// (`std::time::Instant::saturating_duration_since`). Claimed of the
/// result: it is within the range of a duration (as every
/// `std::time::Duration` is), and it is zero from a reading to itself.
/// How it relates to two different readings is left unsaid, since the
/// readings are opaque here.
#[verifier::external_body]
pub(crate) fn span_between(later: std::time::Instant, earlier: std::time::Instant) -> (d: Duration)
    ensures
        d@ <= MAX_NANOS,
        later == earlier ==> d@ == 0,
{
    Duration { nanos: later.saturating_duration_since(earlier).as_nanos() }
}

} // verus!
