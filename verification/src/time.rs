//! Points in time, in UTC, as seconds and nanoseconds since the Unix epoch.

use vstd::prelude::*;

verus! {

/// Earliest second since the Unix epoch that a UTC date-time can hold
/// (January 1 of the year -262143, 00:00:00, in the proleptic Gregorian calendar with a
/// year 0).
pub const MIN_TIMESTAMP_SECS: i64 = -8334601228800;

/// Latest second since the Unix epoch that a UTC date-time can hold
/// (December 31 of the year 262142, 23:59:59).
pub const MAX_TIMESTAMP_SECS: i64 = 8210266876799;

/// Nanoseconds per second.
pub const NANOS_PER_SEC: u32 = 1_000_000_000;

/// The system clock could not be read as a date-time: it lies before the Unix epoch or
/// beyond the range of date-times.
#[derive(Clone, Copy, Debug, PartialEq, Eq, Structural)]
pub struct ClockError;

/// A UTC date-time: whole seconds since the Unix epoch and the nanoseconds past them.
#[derive(Clone, Copy, Debug, PartialEq, Eq, Structural)]
pub struct UtcTime {
    pub secs: i64,
    pub nanos: u32,
}

impl UtcTime {
    /// The date-time lies in the representable range and is no leap second.
    pub open spec fn wf(self) -> bool {
        &&& MIN_TIMESTAMP_SECS <= self.secs <= MAX_TIMESTAMP_SECS
        &&& self.nanos < NANOS_PER_SEC
    }

    /// Whole milliseconds since the Unix epoch (rounded towards the past).
    pub open spec fn millis(self) -> int {
        self.secs * 1000 + self.nanos / 1_000_000
    }

    /// Nanoseconds since the Unix epoch.
    pub open spec fn total_nanos(self) -> int {
        self.secs * 1_000_000_000 + self.nanos
    }

    /// The date-time `ms` milliseconds after the Unix epoch (before it, when negative).
    pub open spec fn from_millis(ms: int) -> UtcTime {
        UtcTime { secs: (ms / 1000) as i64, nanos: ((ms % 1000) * 1_000_000) as u32 }
    }

    /// `ms` milliseconds after the Unix epoch is a representable date-time.
    pub open spec fn millis_in_range(ms: int) -> bool {
        MIN_TIMESTAMP_SECS <= ms / 1000 <= MAX_TIMESTAMP_SECS
    }

    /// January 1, 1970, 00:00:00 UTC.
    pub fn unix_epoch() -> (t: UtcTime)
        ensures
            t == (UtcTime { secs: 0, nanos: 0 }),
            t.wf(),
    {
        UtcTime { secs: 0, nanos: 0 }
    }

    /// The date-time lies before `other`.
    pub fn lt(&self, other: &UtcTime) -> (b: bool)
        requires
            self.wf(),
            other.wf(),
        ensures
            b == (self.total_nanos() < other.total_nanos()),
    {
        self.secs < other.secs || (self.secs == other.secs && self.nanos < other.nanos)
    }

    /// Whole milliseconds since the Unix epoch.
    pub fn timestamp_millis(&self) -> (ms: i64)
        requires
            self.wf(),
        ensures
            ms == self.millis(),
    {
        self.secs * 1000 + (self.nanos / 1_000_000) as i64
    }

    /// The date-time `ms` milliseconds after the Unix epoch, or `None` where that is out of range.
    pub fn from_timestamp_millis(ms: i64) -> (t: Option<UtcTime>)
        ensures
            t == (if UtcTime::millis_in_range(ms as int) {
                Some(UtcTime::from_millis(ms as int))
            } else {
                None
            }),
            t matches Some(t) ==> t.wf() && t.millis() == ms,
    {
        let r = chrono_from_timestamp_millis(ms);
        proof {
            if UtcTime::millis_in_range(ms as int) {
                let t = UtcTime::from_millis(ms as int);
                assert(t.millis() == ms) by (nonlinear_arith)
                    requires
                        t.secs == ms / 1000,
                        t.nanos == (ms % 1000) * 1_000_000,
                        0 <= ms % 1000 < 1000,
                ;
            }
        }
        r
    }
}

#[verifier::external_type_specification]
#[verifier::external_body]
pub struct ExSystemTime(std::time::SystemTime);

/// `std::time::SystemTime::now`: what the system clock says. Nothing is stated of it.
#[verifier::external_body]
fn system_time_now() -> (t: std::time::SystemTime) {
    std::time::SystemTime::now()
}

/// `SystemTime::duration_since(UNIX_EPOCH)`, as whole seconds and the nanoseconds past
/// them; `None` where `t` lies before the Unix epoch.
///
/// std documents `Duration::subsec_nanos` as always below one billion. Which duration comes
/// back depends on `t`, which Verus does not see into; that is not stated.
#[verifier::external_body]
fn since_unix_epoch(t: &std::time::SystemTime) -> (r: Option<(u64, u32)>)
    ensures
        r matches Some((_, n)) ==> n < NANOS_PER_SEC,
{
    match t.duration_since(std::time::UNIX_EPOCH) {
        Ok(d) => Some((d.as_secs(), d.subsec_nanos())),
        Err(_) => None,
    }
}

/// `chrono::DateTime::<Utc>::from_timestamp`, read back as seconds and nanoseconds.
///
/// chrono returns `None` where `secs` falls outside the range of `DateTime<Utc>` (years
/// -262143 to 262142), or `nanos` is two billion or more, or `nanos` is a leap-second value
/// (one billion or more) on a second that is not the last of a minute; otherwise its
/// accessors `timestamp` and `timestamp_subsec_nanos` give `secs` and `nanos` back.
#[verifier::external_body]
fn chrono_from_timestamp(secs: i64, nanos: u32) -> (t: Option<UtcTime>)
    ensures
        t == (if MIN_TIMESTAMP_SECS <= secs <= MAX_TIMESTAMP_SECS && (nanos < NANOS_PER_SEC || (
        nanos < 2 * NANOS_PER_SEC && (secs % 86400) % 60 == 59)) {
            Some(UtcTime { secs, nanos })
        } else {
            None
        }),
{
    match chrono::DateTime::<chrono::Utc>::from_timestamp(secs, nanos) {
        Some(dt) => Some(UtcTime { secs: dt.timestamp(), nanos: dt.timestamp_subsec_nanos() }),
        None => None,
    }
}

/// The current date-time, read as `chrono::Utc::now` reads it: the system clock's seconds
/// since the Unix epoch (cast to `i64`, as chrono casts them) and nanoseconds, made a
/// `DateTime` by `DateTime::from_timestamp`. `None` where chrono would stop the program: the
/// clock lies before the epoch or beyond the range of date-times. What the clock says is
/// not stated.
pub(crate) fn now() -> (t: Option<UtcTime>)
    ensures
        t matches Some(t) ==> t.wf(),
{
    let clock = system_time_now();
    match since_unix_epoch(&clock) {
        Some((secs, nanos)) => chrono_from_timestamp(secs as i64, nanos),
        None => None,
    }
}

/// `chrono::DateTime::<Utc>::from_timestamp_millis`, read back as seconds and nanoseconds.
///
/// chrono splits `ms` into `ms.div_euclid(1000)` seconds and `ms.rem_euclid(1000) * 10^6`
/// nanoseconds and returns `None` exactly where the seconds fall outside the range of
/// `DateTime<Utc>` (years -262143 to 262142); the accessors `timestamp` and
/// `timestamp_subsec_nanos` give those two parts back.
#[verifier::external_body]
fn chrono_from_timestamp_millis(ms: i64) -> (t: Option<UtcTime>)
    ensures
        t == (if UtcTime::millis_in_range(ms as int) {
            Some(UtcTime::from_millis(ms as int))
        } else {
            None
        }),
{
    match chrono::DateTime::<chrono::Utc>::from_timestamp_millis(ms) {
        Some(dt) => Some(UtcTime { secs: dt.timestamp(), nanos: dt.timestamp_subsec_nanos() }),
        None => None,
    }
}

} // verus!
