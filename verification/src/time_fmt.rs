//! Durations in words: "2h 14m", "47m", "12s", "now".

use crate::clock::{seconds_between, Timestamp};
use crate::text::{decimal, digit_char, push_decimal, two_digits};
use vstd::prelude::*;

verus! {

/// A number of seconds in words.
pub open spec fn in_words(secs: nat) -> Seq<char> {
    let h = secs / 3600;
    let m = (secs % 3600) / 60;
    if secs == 0 {
        "now"@
    } else if h > 0 {
        decimal(h) + "h "@ + two_digits(m) + "m"@
    } else if m > 0 {
        decimal(m) + "m"@
    } else {
        decimal(secs % 60) + "s"@
    }
}

/// A number of seconds in words.
pub fn humanize(secs: u64) -> (r: String)
    ensures
        r@ == in_words(secs as nat),
{
    if secs == 0 {
        return "now".to_owned();
    }
    let h: u64 = secs / 3600;
    let m: u64 = (secs % 3600) / 60;
    let s: u64 = secs % 60;
    let mut out = String::new();
    if h > 0 {
        push_decimal(&mut out, h);
        out.append("h ");
        out.push(digit_char((m / 10) as u8));
        out.push(digit_char((m % 10) as u8));
        out.append("m");
    } else if m > 0 {
        push_decimal(&mut out, m);
        out.append("m");
    } else {
        push_decimal(&mut out, s);
        out.append("s");
    }
    assert(out@ =~= in_words(secs as nat));
    out
}

/// How long it is from `now` to `target`, in words.
pub open spec fn reset_text(target: Timestamp, now: Timestamp) -> Seq<char> {
    if seconds_between(target, now) <= 0 {
        "resets soon"@
    } else {
        "resets in "@ + in_words(seconds_between(target, now) as nat)
    }
}

/// "resets in 2h 14m", or "resets soon" when `target` is past.
pub fn resets_in(target: Timestamp, now: Timestamp) -> (r: String)
    ensures
        r@ == reset_text(target, now),
{
    let secs: i64 = target.seconds_since(&now);
    if secs <= 0 {
        return "resets soon".to_owned();
    }
    let mut out = "resets in ".to_owned();
    out.append(humanize(secs as u64).as_str());
    out
}

/// A duration of hours, minutes and seconds is told by its two largest parts from
/// an hour on, and by its largest part below that.
pub proof fn durations_in_words(h: nat, m: nat, s: nat)
    requires
        m < 60,
        s < 60,
    ensures
        h > 0 ==> in_words(3600 * h + 60 * m + s) == decimal(h) + "h "@ + two_digits(m) + "m"@,
        m > 0 ==> in_words(60 * m + s) == decimal(m) + "m"@,
        s > 0 ==> in_words(s) == decimal(s) + "s"@,
        in_words(0) == "now"@,
{
    let n = 3600 * h + 60 * m + s;
    assert(n / 3600 == h && (n % 3600) / 60 == m);
    assert((60 * m + s) / 3600 == 0 && ((60 * m + s) % 3600) / 60 == m);
    assert(s / 3600 == 0 && (s % 3600) / 60 == 0 && s % 60 == s);
}

/// A renewal that is still to come is told in words; one that is due or past
/// comes soon.
pub proof fn renewals_in_words(target: Timestamp, now: Timestamp, h: nat, m: nat, s: nat)
    requires
        m < 60,
        s < 60,
    ensures
        seconds_between(target, now) <= 0 ==> reset_text(target, now) == "resets soon"@,
        h > 0 && seconds_between(target, now) == 3600 * h + 60 * m + s ==> reset_text(target, now)
            == "resets in "@ + (decimal(h) + "h "@ + two_digits(m) + "m"@),
        m > 0 && seconds_between(target, now) == 60 * m + s ==> reset_text(target, now)
            == "resets in "@ + (decimal(m) + "m"@),
        s > 0 && seconds_between(target, now) == s ==> reset_text(target, now) == "resets in "@ + (
        decimal(s) + "s"@),
{
    durations_in_words(h, m, s);
}

} // verus!
