//! Spans of time as plain values.

use vstd::prelude::*;

verus! {

/// A span of time: whole seconds and the nanoseconds behind them.
#[derive(Debug, Clone, Copy, PartialEq, Eq, Structural)]
pub struct Duration {
    pub secs: u64,
    pub nanos: u32,
}

impl View for Duration {
    type V = Duration;

    open spec fn view(&self) -> Duration {
        *self
    }
}

pub open spec fn of_secs(secs: int) -> Duration {
    Duration { secs: secs as u64, nanos: 0 }
}

pub open spec fn of_millis(ms: int) -> Duration {
    Duration { secs: (ms / 1000) as u64, nanos: ((ms % 1000) * 1_000_000) as u32 }
}

impl Duration {
    pub fn from_secs(secs: u64) -> (r: Duration)
        ensures
            r == of_secs(secs as int),
    {
        Duration { secs, nanos: 0 }
    }

    pub fn from_millis(ms: u64) -> (r: Duration)
        ensures
            r == of_millis(ms as int),
    {
        Duration { secs: ms / 1000, nanos: (ms % 1000) as u32 * 1_000_000 }
    }

    pub fn as_secs(&self) -> (r: u64)
        ensures
            r == self.secs,
    {
        self.secs
    }

    /// The whole milliseconds, modulo 2^64.
    pub open spec fn millis(self) -> int {
        (self.secs * 1000 + self.nanos as int / 1_000_000) % 0x1_0000_0000_0000_0000
    }

    /// The whole milliseconds, modulo 2^64.
    pub fn as_millis(&self) -> (r: u64)
        ensures
            r == self.millis(),
    {
        let ms: u128 = self.secs as u128 * 1000 + (self.nanos / 1_000_000) as u128;
        assert(ms as u64 == ms % 0x1_0000_0000_0000_0000u128) by (bit_vector);
        #[verifier::truncate]
        let r: u64 = ms as u64;
        r
    }
}

/// `std::time::Instant`, a point on the monotonic clock.
#[verifier::external_type_specification]
#[verifier::external_body]
pub struct ExInstant(std::time::Instant);

/// A monotonic clock that counts from its creation.
#[derive(Debug)]
pub struct Clock {
    origin: std::time::Instant,
}

/// `Instant::now` reads the monotonic clock.
#[verifier::external_body]
fn instant_now() -> (r: std::time::Instant) {
    std::time::Instant::now()
}

/// `Instant::elapsed` measures the time since `origin`, here in nanoseconds.
/// Nothing can be said of the time beforehand.
#[verifier::external_body]
fn elapsed_nanos(origin: &std::time::Instant) -> (ns: u64) {
    origin.elapsed().as_nanos() as u64
}

impl Clock {
    pub fn start() -> (c: Clock) {
        Clock { origin: instant_now() }
    }

    /// Nanoseconds since the clock was started.
    pub fn now(&self) -> (ns: u64) {
        elapsed_nanos(&self.origin)
    }
}

/// `std::time::SystemTime`, a point on the wall clock.
#[verifier::external_type_specification]
#[verifier::external_body]
pub struct ExSystemTime(std::time::SystemTime);

/// `SystemTime::now` reads the wall clock. Nothing can be said of the time
/// beforehand.
#[verifier::external_body]
fn system_now() -> (r: std::time::SystemTime) {
    std::time::SystemTime::now()
}

/// `SystemTime::duration_since` measures the time from the Unix epoch to `t`;
/// there is none when `t` is before the epoch.
#[verifier::external_body]
fn since_epoch(t: &std::time::SystemTime) -> (d: Option<Duration>) {
    match t.duration_since(std::time::UNIX_EPOCH) {
        Ok(d) => Some(Duration { secs: d.as_secs(), nanos: d.subsec_nanos() }),
        Err(_) => None,
    }
}

/// The time since the Unix epoch; none when the clock is set before that.
pub(crate) fn wall_clock() -> (d: Option<Duration>) {
    since_epoch(&system_now())
}

/// The wall clock in milliseconds since the Unix epoch, or `0` when it is set
/// before that.
pub(crate) fn now_ms() -> (ms: u64) {
    match wall_clock() {
        Some(d) => d.as_millis(),
        None => 0,
    }
}

/// The point `d` after `now`, in nanoseconds; the last point that can be
/// named when that is further away.
pub open spec fn later(now: u64, d: Duration) -> u64 {
    let t = now + d.secs * 1_000_000_000 + d.nanos;
    if t > u64::MAX {
        u64::MAX
    } else {
        t as u64
    }
}

/// The point `d` after `now`, in nanoseconds.
pub fn add_duration(now: u64, d: Duration) -> (r: u64)
    ensures
        r == later(now, d),
{
    let t: u128 = now as u128 + d.secs as u128 * 1_000_000_000u128 + d.nanos as u128;
    if t > u64::MAX as u128 {
        u64::MAX
    } else {
        t as u64
    }
}

} // verus!
