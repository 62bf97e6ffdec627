//! Moments in UTC, as whole seconds since 1970-01-01 00:00:00 and the
//! nanoseconds past them, and the system clock that reads the current one.
use vstd::prelude::*;

verus! {

/// A moment in UTC: `secs` whole seconds since 1970-01-01 00:00:00 (a
/// "UNIX timestamp", negative before it) and `nanos` nanoseconds past them.
#[derive(Clone, Copy, Debug, PartialEq, Eq, Structural)]
pub struct Moment {
    pub secs: i64,
    pub nanos: u32,
}

/// The timestamp of the first second of the calendar (year -262143).
pub const MIN_TIMESTAMP: i64 = -8_334_601_228_800i64;

/// The timestamp of the last second of the calendar (year 262142).
pub const MAX_TIMESTAMP: i64 = 8_210_266_876_799i64;

/// A moment of the calendar that is not within a leap second.
pub open spec fn is_moment(m: Moment) -> bool {
    MIN_TIMESTAMP <= m.secs <= MAX_TIMESTAMP && m.nanos < 1_000_000_000
}

/// Whether `a` is not later than `b`.
pub open spec fn not_later(a: Moment, b: Moment) -> bool {
    a.secs < b.secs || (a.secs == b.secs && a.nanos <= b.nanos)
}

/// `m` moved `minutes` minutes forward.
pub open spec fn plus_minutes(m: Moment, minutes: u32) -> Moment {
    Moment { secs: (m.secs + 60 * minutes) as i64, nanos: m.nanos }
}

/// Whether `m` moved `minutes` minutes forward is still in the calendar.
pub open spec fn can_add_minutes(m: Moment, minutes: u32) -> bool {
    m.secs + 60 * minutes <= MAX_TIMESTAMP
}

impl Moment {
    /// Whether this moment is not later than `other`.
    pub fn not_later_than(&self, other: &Moment) -> (r: bool)
        ensures
            r == not_later(*self, *other),
    {
        self.secs < other.secs || (self.secs == other.secs && self.nanos <= other.nanos)
    }

    /// This moment moved `minutes` minutes forward.
    pub fn plus_minutes(&self, minutes: u32) -> (r: Moment)
        requires
            is_moment(*self),
            can_add_minutes(*self, minutes),
        ensures
            r == plus_minutes(*self, minutes),
            is_moment(r),
    {
        Moment { secs: self.secs + 60 * (minutes as i64), nanos: self.nanos }
    }
}

/// What one reading of the system clock gave: a moment, or none. Only `now`
/// makes one (its field is private to this module), so a contract that
/// speaks of "some `ClockReading`" speaks of a reading the clock gave.
pub struct ClockReading {
    reading: Option<Moment>,
}

impl ClockReading {
    /// The moment this reading gave, if any.
    pub closed spec fn moment(self) -> Option<Moment> {
        self.reading
    }

    /// Whether this reading gave a moment.
    pub fn is_some(&self) -> (r: bool)
        ensures
            r == self.moment() is Some,
    {
        self.reading.is_some()
    }

    /// The moment this reading gave, if any.
    pub fn get(&self) -> (r: Option<Moment>)
        ensures
            r == self.moment(),
    {
        self.reading
    }
}

/// Reads the current moment from the system clock as `chrono::Utc::now`
/// reads it (`SystemTime::now().duration_since(UNIX_EPOCH)`, then
/// `chrono::DateTime::from_timestamp`), but without its panics: no moment
/// when the clock is set before 1970 or past chrono's calendar. What is
/// claimed of a moment read: it is at or after 1970, within chrono's
/// calendar, with fewer than 10^9 nanoseconds (a `Duration`'s sub-second
/// part). Which moment it is, nothing states.
#[verifier::external_body]
pub fn now() -> (r: ClockReading)
    ensures
        r.moment() matches Some(m) ==> is_moment(m) && m.secs >= 0,
{
    let reading = match std::time::SystemTime::now().duration_since(std::time::UNIX_EPOCH) {
        Ok(d) => match i64::try_from(d.as_secs()) {
            Ok(secs) => match chrono::DateTime::from_timestamp(secs, d.subsec_nanos()) {
                Some(t) => Some(Moment { secs: t.timestamp(), nanos: t.timestamp_subsec_nanos() }),
                None => None,
            },
            Err(_) => None,
        },
        Err(_) => None,
    };
    ClockReading { reading }
}

} // verus!
