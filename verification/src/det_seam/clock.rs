//! Unix-millisecond clock: the wall clock in production, a frozen one in
//! tests and replay.
use vstd::prelude::*;

use chrono::TimeZone;
use core::time::Duration;

verus! {

/// Unix milliseconds. Wall is production; Frozen is tests/replay.
#[derive(Clone, Copy, Debug)]
pub enum Clock {
    Wall,
    Frozen(u64),
}

/// The RFC 3339 text, in UTC with millisecond precision and a `Z`, of the
/// instant `secs` seconds and `nsec` nanoseconds after the Unix epoch;
/// none where chrono has no single such instant.
pub uninterp spec fn utc_rfc3339_millis(secs: int, nsec: int) -> Option<Seq<char>>;

/// The length of a duration in nanoseconds (`Duration::as_nanos`), which
/// fixes the duration.
pub uninterp spec fn duration_nanos(d: Duration) -> nat;

/// The number of whole milliseconds in a duration.
pub open spec fn duration_millis(d: Duration) -> nat {
    duration_nanos(d) / 1_000_000
}

/// `chrono::Utc::now().timestamp_millis()`: the wall clock. Nothing can
/// be promised of the reading.
#[verifier::external_body]
fn wall_millis() -> (r: i64) {
    chrono::Utc::now().timestamp_millis()
}

/// chrono's `Utc.timestamp_opt(secs, nsec).single()`, rendered by
/// `to_rfc3339_opts(SecondsFormat::Millis, true)`.
#[verifier::external_body]
fn rfc3339_millis(secs: i64, nsec: u32) -> (r: Option<String>)
    ensures
        match r {
            Some(t) => utc_rfc3339_millis(secs as int, nsec as int) == Some(t@),
            None => utc_rfc3339_millis(secs as int, nsec as int) is None,
        },
{
    chrono::Utc.timestamp_opt(secs, nsec).single().map(|t| t.to_rfc3339_opts(chrono::SecondsFormat::Millis, true))
}

/// `Duration::as_millis`: the whole milliseconds in `d`.
#[verifier::external_body]
pub(crate) fn whole_millis(d: Duration) -> (r: u128)
    ensures
        r == duration_millis(d),
{
    d.as_millis()
}

/// `Duration::from_millis`: a duration of exactly `ms` milliseconds.
#[verifier::external_body]
fn millis_duration(ms: u64) -> (r: Duration)
    ensures
        duration_nanos(r) == ms * 1_000_000,
{
    Duration::from_millis(ms)
}

/// The text of an instant given in Unix milliseconds; the epoch's where
/// chrono has no single such instant.
pub open spec fn ms_text(ms: u64) -> Seq<char> {
    match utc_rfc3339_millis((ms / 1000) as int, ((ms % 1000) * 1_000_000) as int) {
        Some(t) => t,
        None => match utc_rfc3339_millis(0, 0) {
            Some(t) => t,
            None => Seq::empty(),
        },
    }
}

impl Clock {
    pub fn wall() -> (r: Self)
        ensures
            r is Wall,
    {
        Clock::Wall
    }

    pub fn frozen(ms: u64) -> (r: Self)
        ensures
            r == Clock::Frozen(ms),
    {
        Clock::Frozen(ms)
    }

    /// The current time in Unix milliseconds; a frozen clock always reads
    /// its own instant.
    pub fn now_ms(self) -> (r: u64)
        ensures
            self matches Clock::Frozen(ms) ==> r == ms,
    {
        match self {
            Clock::Wall => wall_millis() as u64,
            Clock::Frozen(ms) => ms,
        }
    }

    /// The current time as RFC 3339 text.
    pub fn now_iso(self) -> (r: String)
        ensures
            self matches Clock::Frozen(ms) ==> r@ == ms_text(ms),
    {
        Self::format_ms(self.now_ms())
    }

    /// RFC 3339 text of a Unix-millisecond instant.
    pub fn format_ms(ms: u64) -> (r: String)
        ensures
            r@ == ms_text(ms),
    {
        let secs: i64 = (ms / 1000) as i64;
        let nsec: u32 = ((ms % 1000) * 1_000_000) as u32;
        match rfc3339_millis(secs, nsec) {
            Some(t) => t,
            None => match rfc3339_millis(0, 0) {
                Some(t) => t,
                None => String::new(),
            },
        }
    }

    /// Whole milliseconds of a duration, cut to 64 bits.
    pub fn from_duration(d: Duration) -> (r: u64)
        ensures
            r == duration_millis(d) as u64,
    {
        whole_millis(d) as u64
    }

    /// A duration of exactly `ms` milliseconds.
    pub fn to_duration(ms: u64) -> (r: Duration)
        ensures
            duration_nanos(r) == ms * 1_000_000,
            duration_millis(r) == ms,
    {
        millis_duration(ms)
    }
}

/// Milliseconds survive a trip through a duration.
pub proof fn lemma_duration_round_trip(ms: u64, d: Duration)
    requires
        duration_millis(d) == ms,
    ensures
        duration_millis(d) as u64 == ms,
{
}

} // verus!
