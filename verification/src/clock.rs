//! Instants of UTC.

use crate::calendar::day_in_range;
use crate::text::two_digits;
use chrono::{DateTime, Datelike, Duration, Local, TimeZone, Utc};
use vstd::prelude::*;

verus! {

/// An instant as a count of seconds from January 1, 1970 and a count of
/// nanoseconds, which goes beyond a second during a leap second.
#[derive(Clone, Copy, Debug, PartialEq, Eq, Structural)]
pub struct Timestamp {
    secs: i64,
    nanos: u32,
}

/// The day that second `secs` falls on in UTC.
pub open spec fn utc_day(secs: int) -> int {
    secs / 86400 + 719163
}

/// The pairs that stand for an instant.
pub open spec fn is_instant(secs: int, nanos: int) -> bool {
    &&& day_in_range(utc_day(secs))
    &&& 0 <= nanos < 1_000_000_000 || (nanos < 2_000_000_000 && nanos >= 0 && secs % 60 == 59)
}

pub open spec fn earlier(a: Timestamp, b: Timestamp) -> bool {
    a.seconds() < b.seconds() || (a.seconds() == b.seconds() && a.nanoseconds() < b.nanoseconds())
}

/// The nanoseconds from `b` to `a`. A leap second counts when the time of day
/// passes over it.
pub open spec fn nanos_between(a: Timestamp, b: Timestamp) -> int {
    let ta = a.seconds() % 86400;
    let tb = b.seconds() % 86400;
    let leap: int = if ta > tb && b.nanoseconds() >= 1_000_000_000 {
        1
    } else if ta < tb && a.nanoseconds() >= 1_000_000_000 {
        -1
    } else {
        0
    };
    (a.seconds() - b.seconds() + leap) * 1_000_000_000 + a.nanoseconds() - b.nanoseconds()
}

/// The whole seconds from `b` to `a`, cut off towards zero.
pub open spec fn seconds_between(a: Timestamp, b: Timestamp) -> int {
    let n = nanos_between(a, b);
    if n >= 0 {
        n / 1_000_000_000
    } else {
        -((-n) / 1_000_000_000)
    }
}

/// Of two instants one comes before the other, or they are the same.
pub proof fn instants_are_ordered(a: Timestamp, b: Timestamp)
    ensures
        earlier(a, b) || earlier(b, a) || a == b,
{
}

impl Timestamp {
    pub closed spec fn seconds(self) -> int {
        self.secs as int
    }

    pub closed spec fn nanoseconds(self) -> int {
        self.nanos as int
    }

    #[verifier::type_invariant]
    spec fn valid(self) -> bool {
        is_instant(self.seconds(), self.nanoseconds())
    }

    /// The instant with these counts, where there is one.
    pub fn new(secs: i64, nanos: u32) -> (r: Option<Timestamp>)
        ensures
            match r {
                Some(t) => is_instant(secs as int, nanos as int) && t.seconds() == secs
                    && t.nanoseconds() == nanos,
                None => !is_instant(secs as int, nanos as int),
            },
    {
        if secs < -8334601228800 || secs > 8210266876799 {
            return None;
        }
        let leap = (secs + 8334601228800) % 60 == 59;
        if nanos >= 2_000_000_000 || (nanos >= 1_000_000_000 && !leap) {
            return None;
        }
        Some(Timestamp { secs, nanos })
    }

    pub fn secs(&self) -> (r: i64)
        ensures
            r == self.seconds(),
    {
        self.secs
    }

    pub fn nanos(&self) -> (r: u32)
        ensures
            r == self.nanoseconds(),
    {
        self.nanos
    }

    /// Whether `self` comes before `other`.
    pub fn is_before(&self, other: &Timestamp) -> (r: bool)
        ensures
            r == earlier(*self, *other),
    {
        self.secs < other.secs || (self.secs == other.secs && self.nanos < other.nanos)
    }

    /// Whether every time zone puts the instant on a day in range.
    pub open spec fn localizable(self) -> bool {
        -95746129 < utc_day(self.seconds()) < 95745399
    }

    pub fn is_localizable(&self) -> (r: bool)
        ensures
            r == self.localizable(),
    {
        -8334601142400 <= self.secs && self.secs < 8210266790400
    }

    /// The whole seconds since `other`.
    pub fn seconds_since(&self, other: &Timestamp) -> (r: i64)
        ensures
            r == seconds_between(*self, *other),
    {
        proof {
            use_type_invariant(self);
            use_type_invariant(other);
        }
        elapsed_seconds(self, other)
    }

    /// The instant `millis` milliseconds from January 1, 1970, where there is
    /// one.
    pub fn from_millis(millis: i64) -> (r: Option<Timestamp>)
        ensures
            match r {
                Some(t) => day_in_range(utc_day(millis as int / 1000)) && t.seconds()
                    == millis as int / 1000 && t.nanoseconds() == (millis as int % 1000) * 1_000_000,
                None => !day_in_range(utc_day(millis as int / 1000)),
            },
    {
        match instant_of_millis(millis) {
            Some((secs, nanos)) => Timestamp::new(secs, nanos),
            None => None,
        }
    }

    /// The day that the machine's time zone puts the instant on.
    pub fn local_day(&self) -> (r: i32)
        requires
            self.localizable(),
        ensures
            is_near(r, *self),
    {
        proof {
            use_type_invariant(self);
        }
        day_in_local_zone(self)
    }

    /// The time of day in the machine's time zone.
    pub fn local_time(&self) -> (r: String)
        ensures
            is_clock_face(r@),
    {
        proof {
            use_type_invariant(self);
        }
        time_in_local_zone(self)
    }

    /// Whether `self` is at most a minute after `now`, or before it.
    pub fn within_a_minute(&self, now: &Timestamp) -> (r: bool)
        requires
            day_in_range(utc_day(minute_before(*self).0)),
        ensures
            r == !after_pair(minute_before(*self), *now),
    {
        proof {
            use_type_invariant(self);
        }
        let (secs, nanos) = minute_earlier(self);
        secs < now.secs || (secs == now.secs && nanos <= now.nanos)
    }
}

/// `text` is a time of day in hours, minutes and seconds. A leap second counts
/// as second 60.
pub open spec fn is_clock_face(text: Seq<char>) -> bool {
    exists|h: nat, m: nat, s: nat|
        h < 24 && m < 60 && s <= 60 && text == #[trigger] clock_face(h, m, s)
}

pub open spec fn clock_face(h: nat, m: nat, s: nat) -> Seq<char> {
    two_digits(h) + ":"@ + two_digits(m) + ":"@ + two_digits(s)
}

/// Whether `day` is the day of `t` in UTC or one next to it.
pub open spec fn is_near(day: i32, t: Timestamp) -> bool {
    utc_day(t.seconds()) - 1 <= day <= utc_day(t.seconds()) + 1
}

/// The counts of the instant a minute before `t`.
pub open spec fn minute_before(t: Timestamp) -> (int, int) {
    if t.nanoseconds() >= 1_000_000_000 {
        (t.seconds() + 1 - 60, t.nanoseconds() - 1_000_000_000)
    } else {
        (t.seconds() - 60, t.nanoseconds())
    }
}

/// Whether the instant with counts `p` comes after `t`.
pub open spec fn after_pair(p: (int, int), t: Timestamp) -> bool {
    p.0 > t.seconds() || (p.0 == t.seconds() && p.1 > t.nanoseconds())
}

/// `DateTime::signed_duration_since` and `TimeDelta::num_seconds` of chrono: the
/// whole seconds from `b` to `a`.
#[verifier::external_body]
fn elapsed_seconds(a: &Timestamp, b: &Timestamp) -> (r: i64)
    requires
        is_instant(a.seconds(), a.nanoseconds()),
        is_instant(b.seconds(), b.nanoseconds()),
    ensures
        r == seconds_between(*a, *b),
{
    let x = DateTime::<Utc>::from_timestamp(a.secs, a.nanos).unwrap();
    let y = DateTime::<Utc>::from_timestamp(b.secs, b.nanos).unwrap();
    x.signed_duration_since(y).num_seconds()
}

/// `DateTime - Duration` of chrono with a duration of 60 seconds: the instant a
/// minute earlier, as its counts of seconds and nanoseconds.
#[verifier::external_body]
fn minute_earlier(t: &Timestamp) -> (r: (i64, u32))
    requires
        is_instant(t.seconds(), t.nanoseconds()),
        day_in_range(utc_day(minute_before(*t).0)),
    ensures
        r.0 == minute_before(*t).0,
        r.1 == minute_before(*t).1,
{
    let x = DateTime::<Utc>::from_timestamp(t.secs, t.nanos).unwrap() - Duration::seconds(60);
    (x.timestamp(), x.timestamp_subsec_nanos())
}

/// `Utc.timestamp_millis_opt(..).single()` of chrono: the instant that many
/// milliseconds from January 1, 1970, as its counts of seconds and nanoseconds,
/// or nothing outside the days that chrono covers.
#[verifier::external_body]
fn instant_of_millis(millis: i64) -> (r: Option<(i64, u32)>)
    ensures
        match r {
            Some((secs, nanos)) => day_in_range(utc_day(millis as int / 1000)) && secs
                == millis as int / 1000 && nanos == (millis as int % 1000) * 1_000_000,
            None => !day_in_range(utc_day(millis as int / 1000)),
        },
{
    let t = Utc.timestamp_millis_opt(millis).single();
    t.map(|x| (x.timestamp(), x.timestamp_subsec_nanos()))
}

/// `DateTime::with_timezone` with `Local`, and `date_naive`, of chrono: the day
/// that the machine's time zone puts the instant on. An offset is less than a
/// day, so it is the day in UTC or one next to it; which of them it is rests on
/// the machine.
#[verifier::external_body]
fn day_in_local_zone(t: &Timestamp) -> (r: i32)
    requires
        is_instant(t.seconds(), t.nanoseconds()),
        t.localizable(),
    ensures
        is_near(r, *t),
{
    let x = DateTime::<Utc>::from_timestamp(t.secs, t.nanos).unwrap();
    x.with_timezone(&Local).date_naive().num_days_from_ce()
}

/// `DateTime::with_timezone` with `Local`, and `format` with `%H:%M:%S`, of
/// chrono: the time of day that the machine's time zone gives the instant. Which
/// time it is rests on the machine. The day, which may be out of range, plays no
/// part in it.
#[verifier::external_body]
fn time_in_local_zone(t: &Timestamp) -> (r: String)
    requires
        is_instant(t.seconds(), t.nanoseconds()),
    ensures
        is_clock_face(r@),
{
    let x = DateTime::<Utc>::from_timestamp(t.secs, t.nanos).unwrap();
    x.with_timezone(&Local).format("%H:%M:%S").to_string()
}

/// The time from one instant to another is that from the other to the one with
/// the sign changed. Outside leap seconds it is the difference of the counts, and
/// adds up over an instant between them.
pub proof fn time_runs_evenly(a: Timestamp, b: Timestamp, c: Timestamp)
    ensures
        nanos_between(a, b) == -nanos_between(b, a),
        seconds_between(a, b) == -seconds_between(b, a),
        a.nanoseconds() < 1_000_000_000 && b.nanoseconds() < 1_000_000_000 ==> nanos_between(a, b)
            == (a.seconds() * 1_000_000_000 + a.nanoseconds()) - (b.seconds() * 1_000_000_000
            + b.nanoseconds()),
        a.nanoseconds() < 1_000_000_000 && b.nanoseconds() < 1_000_000_000 && c.nanoseconds()
            < 1_000_000_000 ==> nanos_between(a, c) == nanos_between(a, b) + nanos_between(b, c),
{
    let ta = a.seconds() % 86400;
    let tb = b.seconds() % 86400;
}

/// Whole seconds are counted, and what is left over is less than one and has the
/// same sign.
pub proof fn seconds_are_whole(a: Timestamp, b: Timestamp)
    ensures
        nanos_between(a, b) >= 0 ==> 0 <= nanos_between(a, b) - 1_000_000_000 * seconds_between(
            a,
            b,
        ) < 1_000_000_000,
        nanos_between(a, b) < 0 ==> 0 <= 1_000_000_000 * seconds_between(a, b) - nanos_between(
            a,
            b,
        ) < 1_000_000_000,
{
}

/// The instants are in one order, and one that is earlier is so by some
/// nanoseconds.
pub proof fn earlier_instants_come_before(a: Timestamp, b: Timestamp, c: Timestamp)
    ensures
        !earlier(a, a),
        !(earlier(a, b) && earlier(b, a)),
        earlier(a, b) && earlier(b, c) ==> earlier(a, c),
        0 <= a.nanoseconds() < 1_000_000_000 && 0 <= b.nanoseconds() < 1_000_000_000 ==> (earlier(
            a,
            b,
        ) <==> nanos_between(b, a) > 0),
{
}

/// Every second of a day falls on it: day 719163 is the first of 1970.
pub proof fn days_have_their_seconds(day: int, second: int)
    requires
        0 <= second < 86400,
    ensures
        utc_day(86400 * day + second) == 719163 + day,
        crate::calendar::day_number(1970, 1, 1) == 719163,
{
    reveal_with_fuel(crate::calendar::before_month, 2);
}

} // verus!
