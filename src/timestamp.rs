//! Local calendar date and hour of RFC 3339 timestamps, read by `chrono`.

use vstd::prelude::*;
use vstd::string::*;
use chrono::{Datelike, Timelike};
use crate::text::{digit_char};

verus! {

/// The calendar date and hour that a timestamp names in its own offset.
#[derive(Debug, Clone, Copy, PartialEq, Eq, Structural)]
pub struct LocalTime {
    pub year: u32,
    pub month: u32,
    pub day: u32,
    pub hour: u32,
}

/// The (year, month, day, hour) that `chrono` reads from an RFC 3339
/// timestamp, in the timestamp's own offset; `None` when it refuses the text.
pub uninterp spec fn rfc3339_local_hour(s: Seq<char>) -> Option<(u32, u32, u32, u32)>;

/// The local time of a timestamp text, when it is a valid RFC 3339 timestamp.
pub open spec fn local_time_of(s: Seq<char>) -> Option<LocalTime> {
    match rfc3339_local_hour(s) {
        Some(t) => Some(LocalTime { year: t.0, month: t.1, day: t.2, hour: t.3 }),
        None => None,
    }
}

/// Relies on `chrono::DateTime::parse_from_rfc3339` and on the `year`,
/// `month`, `day` and `hour` accessors of its result, which give the local
/// date and time as written: a four-digit year, a valid month and day, and an
/// hour below 24.
#[verifier::external_body]
pub(crate) fn parse_local_time(s: &str) -> (r: Option<LocalTime>)
    ensures
        match r {
            Some(t) => rfc3339_local_hour(s@) == Some((t.year, t.month, t.day, t.hour)),
            None => rfc3339_local_hour(s@) is None,
        },
        r == local_time_of(s@),
        r matches Some(t) ==> t.year <= 9999 && 1 <= t.month <= 12 && 1 <= t.day <= 31 && t.hour
            <= 23,
{
    chrono::DateTime::parse_from_rfc3339(s).ok().map(
        |dt| LocalTime { year: dt.year() as u32, month: dt.month(), day: dt.day(), hour: dt.hour() },
    )
}

/// A calendar day as (year, month, day).
pub open spec fn day_key(t: LocalTime) -> (u32, u32, u32) {
    (t.year, t.month, t.day)
}

/// Calendar order of days.
pub open spec fn day_le(a: (u32, u32, u32), b: (u32, u32, u32)) -> bool {
    ||| a.0 < b.0
    ||| (a.0 == b.0 && a.1 < b.1)
    ||| (a.0 == b.0 && a.1 == b.1 && a.2 <= b.2)
}

/// `n` in `width` decimal digits, zero-padded.
pub open spec fn padded(n: nat, width: nat) -> Seq<char>
    decreases width,
{
    if width == 0 {
        Seq::empty()
    } else {
        padded(n / 10, (width - 1) as nat).push(digit_char(n % 10))
    }
}

/// A day written as `YYYY-MM-DD`.
pub open spec fn day_text(d: (u32, u32, u32)) -> Seq<char> {
    padded(d.0 as nat, 4) + "-"@ + padded(d.1 as nat, 2) + "-"@ + padded(d.2 as nat, 2)
}

fn push_padded(s: &mut String, n: u32, width: u32)
    requires
        width <= 4,
    ensures
        final(s)@ == old(s)@ + padded(n as nat, width as nat),
    decreases width,
{
    if width > 0 {
        push_padded(s, n / 10, width - 1);
        s.append(crate::text::digit_text((n % 10) as u64));
    }
}

/// A day written as `YYYY-MM-DD`.
pub fn day_string(year: u32, month: u32, day: u32) -> (r: String)
    ensures
        r@ == day_text((year, month, day)),
{
    let mut s = String::new();
    push_padded(&mut s, year, 4);
    s.append("-");
    push_padded(&mut s, month, 2);
    s.append("-");
    push_padded(&mut s, day, 2);
    s
}

} // verus!
