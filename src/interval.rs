//! The reporting window: a span of wall-clock time in milliseconds since the epoch.

use vstd::prelude::*;
use crate::writer::{day_file_name, day_file_of};
use crate::clock::{DayKey, date_text, local_day, local_midnight, now_millis, push_date, shift_day, shifted_day};

verus! {

/// A half-open window `[start, end)` of milliseconds since the Unix epoch.
#[derive(Clone, Copy, Debug, PartialEq, Eq, Structural)]
pub struct Interval {
    pub start: i64,
    pub end: i64,
}

impl Interval {
    /// The window's width in milliseconds (negative for a reversed window).
    pub open spec fn spec_width(&self) -> int {
        self.end - self.start
    }

    /// The window's width in milliseconds; a reversed window has width zero.
    pub fn width(&self) -> (r: u64)
        ensures
            r == if self.spec_width() > 0 {
                self.spec_width()
            } else {
                0
            },
    {
        if self.end > self.start {
            (self.end as i128 - self.start as i128) as u64
        } else {
            0
        }
    }

    /// Whether the instant `timestamp_ms` lies inside the window.
    pub fn contains_utc_timestamp_millis(&self, timestamp_ms: u64) -> (r: bool)
        ensures
            r == (self.start <= timestamp_ms && timestamp_ms < self.end),
    {
        let t = timestamp_ms as i128;
        self.start as i128 <= t && t < self.end as i128
    }
}

/// How a window from day `a` to day `b` is written: the one day where they
/// are the same, else `a - b`.
pub open spec fn range_text(a: DayKey, b: DayKey) -> Seq<char> {
    if a == b {
        date_text(a)
    } else {
        date_text(a) + seq![' ', '-', ' '] + date_text(b)
    }
}

/// Writes the window from day `a` to day `b` (see `range_text`).
pub fn date_range_text(a: DayKey, b: DayKey) -> (r: String)
    ensures
        r@ == range_text(a, b),
{
    let mut s = String::new();
    push_date(&mut s, a);
    if a != b {
        s.append(" - ");
        push_date(&mut s, b);
        proof {
            reveal_strlit(" - ");
        }
    }
    assert(s@ =~= range_text(a, b));
    s
}

/// How a window is written from its first and last local day, each known
/// or not: the range where both are known, else nothing.
pub open spec fn window_text(first: Option<DayKey>, last: Option<DayKey>) -> Seq<char> {
    match (first, last) {
        (Some(a), Some(b)) => range_text(a, b),
        _ => Seq::empty(),
    }
}

/// Writes a window from its first and last local day (see `window_text`).
pub fn window_string(first: Option<DayKey>, last: Option<DayKey>) -> (r: String)
    ensures
        r@ == window_text(first, last),
{
    match (first, last) {
        (Some(a), Some(b)) => date_range_text(a, b),
        _ => String::new(),
    }
}

/// The most local days a window from `start` to `end` can touch: one per
/// started day of its width, and one more for a day cut by each end.
pub open spec fn day_bound(start: int, end: int) -> int {
    if end > start {
        (end - start) / 86_400_000 + 3
    } else {
        1
    }
}

/// The last instant of a window ending at `end`: one second before.
pub open spec fn last_second(end: int) -> int {
    end - 1000
}

impl Interval {
    /// The window of the last `days` local calendar days, today included:
    /// from local midnight `days - 1` days ago to the coming local midnight.
    /// `None` where the calendar or the time zone cannot place those midnights.
    pub fn from_day_count(days: u64) -> (r: Option<Interval>)
        ensures
            days > i64::MAX ==> r is None,
            r is Some ==> exists|today: DayKey|
                shifted_day(today, 1 - days) is Some && (#[trigger] shifted_day(today, 1)) is Some,
    {
        if days > i64::MAX as u64 {
            return None;
        }
        let today = local_day(now_millis()?)?;
        let first = shift_day(today, 1 - days as i64)?;
        let next = shift_day(today, 1)?;
        let start = local_midnight(first)?;
        let end = local_midnight(next)?;
        Some(Interval { start, end })
    }

    /// Makes this the window of the last `value` days (at least one); the
    /// window stays as it was where that window cannot be placed.
    pub fn set_days(&mut self, value: u64)
        ensures
            *final(self) == *old(self) || exists|today: DayKey|
                shifted_day(today, 1 - (if value < 1 { 1 } else { value as int })) is Some
                    && (#[trigger] shifted_day(today, 1)) is Some,
    {
        let days = if value < 1 {
            1
        } else {
            value
        };
        if let Some(w) = Interval::from_day_count(days) {
            *self = w;
        }
    }

    /// The window's local calendar days: the first, and the one of its last
    /// second (see `window_text`).
    pub fn date_str(&self) -> (r: String)
        ensures
            exists|first: Option<DayKey>, last: Option<DayKey>| r@ == window_text(first, last),
    {
        let first = local_day(self.start);
        let last = if self.end >= i64::MIN + 1000 {
            local_day(self.end - 1000)
        } else {
            None
        };
        window_string(first, last)
    }

    /// The local days that the window touches, oldest first: where the
    /// time zone places the window's start and its last second, the days
    /// from the one to the other (see `day_run`), at most `day_bound` of
    /// them; else none.
    pub fn days(&self) -> (r: Vec<DayKey>)
        ensures
            r@.len() == 0 || exists|first: DayKey, last: DayKey|
                r@ == day_run(first, last, day_bound(self.start as int, self.end as int)),
    {
        let first = local_day(self.start);
        let last = if self.end >= i64::MIN + 1000 {
            local_day(self.end - 1000)
        } else {
            None
        };
        let bound: u64 = if self.end > self.start {
            ((self.end as i128 - self.start as i128) / 86_400_000 + 3) as u64
        } else {
            1
        };
        match (first, last) {
            (Some(a), Some(b)) => {
                assert(bound as int == day_bound(self.start as int, self.end as int));
                let r = days_from(a, b, bound);
                assert(r@ == day_run(a, b, day_bound(self.start as int, self.end as int)));
                r
            },
            _ => Vec::new(),
        }
    }

    /// The names of the window's day files, oldest first: one per day of
    /// `days` (see `day_file_of`).
    pub fn day_file_names(&self) -> (r: Vec<String>)
        ensures
            r@.len() == 0 || exists|first: DayKey, last: DayKey|
                r@.map_values(|n: String| n@) == day_run(first, last, day_bound(self.start as int, self.end as int)).map_values(
                    |d: DayKey| day_file_of(d),
                ),
    {
        let days = self.days();
        let mut names: Vec<String> = Vec::new();
        let mut i: usize = 0;
        while i < days.len()
            invariant
                i <= days@.len(),
                names@.len() == i,
                forall|j: int| 0 <= j < i ==> (#[trigger] names@[j])@ == day_file_of(days@[j]),
            decreases days.len() - i,
        {
            names.push(day_file_name(days[i]));
            i = i + 1;
        }
        assert(names@.map_values(|n: String| n@) =~= days@.map_values(|d: DayKey| day_file_of(d)));
        names
    }

    /// Whether this is today's window (see `from_day_count`); false where
    /// today's window cannot be placed.
    pub fn is_default(&self) -> (r: bool)
        ensures
            r ==> exists|today: DayKey|
                shifted_day(today, 0) is Some && (#[trigger] shifted_day(today, 1)) is Some,
    {
        match Interval::from_day_count(1) {
            Some(today) => *self == today,
            None => false,
        }
    }
}

/// The days from `first` on, each the day after the one before, until `last`
/// is reached, `bound` days are listed, or the calendar cannot go on.
pub open spec fn day_run(first: DayKey, last: DayKey, bound: int) -> Seq<DayKey>
    decreases bound,
{
    if bound <= 0 {
        Seq::empty()
    } else if first == last {
        seq![first]
    } else {
        match shifted_day(first, 1) {
            Some(next) => seq![first] + day_run(next, last, bound - 1),
            None => seq![first],
        }
    }
}

/// Lists the days from `first` to `last` (see `day_run`).
pub fn days_from(first: DayKey, last: DayKey, bound: u64) -> (r: Vec<DayKey>)
    ensures
        r@ == day_run(first, last, bound as int),
        bound >= 1 ==> r@.len() >= 1 && r@[0] == first,
        r@.len() <= bound,
{
    let mut out: Vec<DayKey> = Vec::new();
    let mut cur = first;
    let mut left: u64 = bound;
    while left > 0
        invariant
            out@.len() + left == bound,
            out@ + day_run(cur, last, left as int) == day_run(first, last, bound as int),
        decreases left,
    {
        out.push(cur);
        if cur == last {
            assert(out@ =~= day_run(first, last, bound as int));
            return out;
        }
        match shift_day(cur, 1) {
            Some(next) => {
                let ghost before = out@;
                assert(before.drop_last() + day_run(cur, last, left as int) == day_run(first, last, bound as int));
                assert(before.drop_last() + (seq![cur] + day_run(next, last, left - 1)) =~= before + day_run(next, last, left - 1));
                cur = next;
                left = left - 1;
            },
            None => {
                assert(out@ =~= day_run(first, last, bound as int));
                return out;
            },
        }
    }
    assert(out@ =~= day_run(first, last, bound as int));
    out
}

} // verus!
