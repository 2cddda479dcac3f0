//! Spans of time and points in time, counted in nanoseconds.

use vstd::prelude::*;

verus! {

pub const NANOS_PER_SECOND: u128 = 1_000_000_000;

pub const NANOS_PER_MILLISECOND: u128 = 1_000_000;

/// The longest span: `u64::MAX` seconds and the nanoseconds below one more.
pub const MAX_NANOS: u128 = 18_446_744_073_709_551_615_999_999_999;

/// A span of time of at most `u64::MAX` seconds and 999,999,999 nanoseconds.
#[derive(Debug, Clone, Copy, PartialEq, Eq, PartialOrd, Ord, Hash, Structural)]
pub struct Duration {
    nanos: u128,
}

impl View for Duration {
    type V = int;

    /// The number of nanoseconds.
    closed spec fn view(&self) -> int {
        self.nanos as int
    }
}

impl Duration {
    #[verifier::type_invariant]
    spec fn in_range(self) -> bool {
        self.nanos <= MAX_NANOS
    }

    /// No time at all.
    pub fn zero() -> (result: Duration)
        ensures
            result@ == 0,
    {
        Duration { nanos: 0 }
    }

    pub fn from_secs(seconds: u64) -> (result: Duration)
        ensures
            result@ == seconds * 1_000_000_000,
    {
        Duration { nanos: seconds as u128 * NANOS_PER_SECOND }
    }

    pub fn from_millis(millis: u64) -> (result: Duration)
        ensures
            result@ == millis * 1_000_000,
    {
        Duration { nanos: millis as u128 * NANOS_PER_MILLISECOND }
    }

    pub fn from_nanos(nanos: u64) -> (result: Duration)
        ensures
            result@ == nanos,
    {
        Duration { nanos: nanos as u128 }
    }

    /// `seconds` and `nanos`, if the sum is no longer than the longest span.
    pub fn from_parts(seconds: u64, nanos: u32) -> (result: Option<Duration>)
        ensures
            match result {
                Some(span) => span@ == seconds * 1_000_000_000 + nanos,
                None => seconds * 1_000_000_000 + nanos > MAX_NANOS,
            },
            result is None <==> seconds * 1_000_000_000 + nanos >= 0x1_0000_0000_0000_0000
                * 1_000_000_000,
    {
        let total: u128 = seconds as u128 * NANOS_PER_SECOND + nanos as u128;
        if total > MAX_NANOS {
            return None;
        }
        Some(Duration { nanos: total })
    }

    pub fn as_nanos(&self) -> (result: u128)
        ensures
            result == self@,
            result <= MAX_NANOS,
    {
        proof {
            use_type_invariant(self);
        }
        self.nanos
    }

    /// The whole seconds.
    pub fn as_secs(&self) -> (result: u64)
        ensures
            result == self@ / 1_000_000_000,
            0 <= self@ <= MAX_NANOS,
    {
        proof {
            use_type_invariant(self);
        }
        (self.nanos / NANOS_PER_SECOND) as u64
    }

    /// The nanoseconds behind the whole seconds.
    pub fn subsec_nanos(&self) -> (result: u32)
        ensures
            result == self@ % 1_000_000_000,
    {
        (self.nanos % NANOS_PER_SECOND) as u32
    }

    /// Whether this span is shorter than `other`.
    pub fn is_shorter_than(&self, other: &Duration) -> (result: bool)
        ensures
            result == (self@ < other@),
    {
        self.nanos < other.nanos
    }
}

/// A span of time in words, as the standard library's `Duration` writes it for
/// debugging (`1.5s`, `250ms`).
pub uninterp spec fn duration_words(seconds: u64, nanos: u32) -> Seq<char>;

/// Writes a span of time with the `Debug` of the standard library's
/// `std::time::Duration`. The words are determined by the seconds and the
/// nanoseconds behind them.
#[verifier::external_body]
fn debug_duration(seconds: u64, nanos: u32) -> (result: String)
    requires
        nanos < 1_000_000_000,
    ensures
        result@ == duration_words(seconds, nanos),
{
    format!("{:?}", std::time::Duration::new(seconds, nanos))
}

impl Duration {
    /// The words for this span.
    pub open spec fn words(self) -> Seq<char> {
        duration_words((self@ / 1_000_000_000) as u64, (self@ % 1_000_000_000) as u32)
    }

    /// The words for this span, such as `1.5s` or `250ms`.
    pub fn to_words(&self) -> (result: String)
        ensures
            result@ == self.words(),
    {
        debug_duration(self.as_secs(), self.subsec_nanos())
    }
}

/// A point in time: the nanoseconds since an origin that the caller fixes.
#[derive(Debug, Clone, Copy, PartialEq, Eq, PartialOrd, Ord, Hash, Structural)]
pub struct Instant {
    pub nanos: u128,
}

impl View for Instant {
    type V = int;

    open spec fn view(&self) -> int {
        self.nanos as int
    }
}

impl Instant {
    pub fn from_nanos(nanos: u128) -> (result: Instant)
        ensures
            result@ == nanos,
    {
        Instant { nanos }
    }

    /// The point `span` later, if it can be counted.
    pub fn checked_add(&self, span: Duration) -> (result: Option<Instant>)
        ensures
            match result {
                Some(later) => later@ == self@ + span@,
                None => self@ + span@ > u128::MAX,
            },
    {
        match self.nanos.checked_add(span.as_nanos()) {
            Some(nanos) => Some(Instant { nanos }),
            None => None,
        }
    }

    /// Whether this point lies after `other`.
    pub fn is_after(&self, other: &Instant) -> (result: bool)
        ensures
            result == (self@ > other@),
    {
        self.nanos > other.nanos
    }
}

} // verus!
