//! The wall clock and the local calendar, read through `chrono`.

use vstd::prelude::*;
use chrono::{Datelike, TimeZone};
use crate::text::{padded, push_padded};

verus! {

/// A local calendar day.
#[derive(Clone, Copy, Debug, PartialEq, Eq, Structural)]
pub struct DayKey {
    pub year: i32,
    pub month: u32,
    pub day: u32,
}

/// The current time in milliseconds since the Unix epoch, or `None` where
/// the system clock cannot be read as such an instant. Relies on
/// `chrono::DateTime::from_timestamp` (the seconds and nanoseconds of
/// `SystemTime::now` since the epoch converted to chrono's type), which
/// returns `None` out of chrono's range, and `timestamp_millis`; nothing is
/// known of the value read.
#[verifier::external_body]
pub fn now_millis() -> Option<i64> {
    let since = std::time::SystemTime::now().duration_since(std::time::UNIX_EPOCH).ok()?;
    let secs = i64::try_from(since.as_secs()).ok()?;
    Some(chrono::DateTime::from_timestamp(secs, since.subsec_nanos())?.timestamp_millis())
}

/// The local calendar day of the instant `ms` (milliseconds since the epoch),
/// in the machine's time zone. Relies on `chrono::Local::timestamp_millis_opt`
/// and its `single` result: `None` where the instant is out of chrono's range.
/// Month and day are as `Datelike` documents them.
#[verifier::external_body]
pub fn local_day(ms: i64) -> (r: Option<DayKey>)
    ensures
        r matches Some(d) ==> 1 <= d.month <= 12 && 1 <= d.day <= 31,
{
    let t = chrono::Local.timestamp_millis_opt(ms).single()?;
    Some(DayKey { year: t.year(), month: t.month(), day: t.day() })
}

/// The day `n` days after `d` in the proleptic Gregorian calendar, as chrono
/// computes it: `None` where `d` is no valid date or the result leaves
/// chrono's range.
pub uninterp spec fn shifted_day(d: DayKey, n: int) -> Option<DayKey>;

/// The day `n` days after `d` (before it for negative `n`). Relies on
/// `chrono::NaiveDate::checked_add_signed` (with `from_ymd_opt` and
/// `TimeDelta::try_days` to convert the arguments): a calendar computation on
/// its arguments alone, `None` where `d` is no valid date or the result
/// leaves chrono's range.
#[verifier::external_body]
pub fn shift_day(d: DayKey, n: i64) -> (r: Option<DayKey>)
    ensures
        r == shifted_day(d, n as int),
        r matches Some(e) ==> 1 <= e.month <= 12 && 1 <= e.day <= 31,
{
    let date = chrono::NaiveDate::from_ymd_opt(d.year, d.month, d.day)?;
    let t = date.checked_add_signed(chrono::TimeDelta::try_days(n)?)?;
    Some(DayKey { year: t.year(), month: t.month(), day: t.day() })
}

/// The instant (milliseconds since the epoch) at which day `d` begins in the
/// machine's time zone. Relies on `chrono::Local::from_local_datetime` with
/// its `single` result: `None` where local midnight of `d` does not occur
/// exactly once, or `d` is no valid date.
#[verifier::external_body]
pub fn local_midnight(d: DayKey) -> (r: Option<i64>) {
    let date = chrono::NaiveDate::from_ymd_opt(d.year, d.month, d.day)?;
    let t = chrono::Local.from_local_datetime(&date.and_time(chrono::NaiveTime::MIN)).single()?;
    Some(t.timestamp_millis())
}

/// A year written with at least four digits, with a `-` sign when negative.
pub open spec fn year_text(y: int) -> Seq<char> {
    if y < 0 {
        seq!['-'] + padded((-y) as nat, 4)
    } else {
        padded(y as nat, 4)
    }
}

/// A day written `YYYY-MM-DD`.
pub open spec fn date_text(d: DayKey) -> Seq<char> {
    year_text(d.year as int) + seq!['-'] + padded(d.month as nat, 2) + seq!['-'] + padded(d.day as nat, 2)
}

/// Appends day `d` written `YYYY-MM-DD` to `s`.
pub fn push_date(s: &mut String, d: DayKey)
    ensures
        final(s)@ == old(s)@ + date_text(d),
{
    proof {
        reveal_strlit("-");
    }
    if d.year < 0 {
        s.append("-");
        push_padded(s, (0 - d.year as i64) as u64, 4);
    } else {
        push_padded(s, d.year as u64, 4);
    }
    s.append("-");
    push_padded(s, d.month as u64, 2);
    s.append("-");
    push_padded(s, d.day as u64, 2);
    assert(final(s)@ =~= old(s)@ + date_text(d));
}

} // verus!
