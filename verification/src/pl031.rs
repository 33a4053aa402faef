//! The real-time clock: what date and time of day a count of seconds since
//! the start of 1970 stands for.

use vstd::prelude::*;

verus! {

/// The time zone value that says that none is known.
pub const EFI_UNSPECIFIED_TIMEZONE: u16 = 0x07ff;

/// A date and a time of day, as the firmware interface has it.
#[derive(Clone, Copy, PartialEq, Eq, Structural, Debug)]
pub struct Time {
    pub year: u16,
    pub month: u8,
    pub day: u8,
    pub hour: u8,
    pub minute: u8,
    pub second: u8,
    pub pad1: u8,
    pub nanosecond: u32,
    pub timezone: u16,
    pub daylight: u8,
    pub pad2: u8,
}

/// Whether the year has a 29th of February.
pub open spec fn is_leap(year: int) -> bool {
    year % 4 == 0 && (year % 100 != 0 || year % 400 == 0)
}

/// The number of days of the year.
pub open spec fn days_in_year(year: int) -> int {
    if is_leap(year) {
        366
    } else {
        365
    }
}

/// The number of days of the month, which is one of 1 to 12.
pub open spec fn days_in_month(year: int, month: int) -> int {
    if month == 2 {
        if is_leap(year) {
            29
        } else {
            28
        }
    } else if month == 4 || month == 6 || month == 9 || month == 11 {
        30
    } else {
        31
    }
}

/// The number of days from the start of 1970 to the start of the year.
pub open spec fn days_before_year(year: int) -> int
    decreases year,
{
    if year <= 1970 {
        0
    } else {
        days_before_year(year - 1) + days_in_year(year - 1)
    }
}

/// The number of days from the start of the year to the start of the month.
pub open spec fn days_before_month(year: int, month: int) -> int
    decreases month,
{
    if month <= 1 {
        0
    } else {
        days_before_month(year, month - 1) + days_in_month(year, month - 1)
    }
}

/// Whether `t` is the date and time of day that come `ts` seconds after the
/// start of 1970: a day of a month of a year that lies as many whole days
/// after the start of 1970 as `ts` holds, and the time of day that the rest
/// of the seconds make.
pub open spec fn is_time_of(t: Time, ts: u32) -> bool {
    &&& t.year >= 1970
    &&& 1 <= t.month <= 12
    &&& 1 <= t.day <= days_in_month(t.year as int, t.month as int)
    &&& days_before_year(t.year as int) + days_before_month(t.year as int, t.month as int) + t.day
        - 1 == ts / 86400
    &&& t.hour < 24
    &&& t.minute < 60
    &&& t.second < 60
    &&& t.hour * 3600 + t.minute * 60 + t.second == ts % 86400
    &&& t.pad1 == 0
    &&& t.nanosecond == 0
    &&& t.timezone == 0x07ff
    &&& t.daylight == 0
    &&& t.pad2 == 0
}

fn leap(year: u16) -> (r: bool)
    ensures
        r == is_leap(year as int),
{
    year % 4 == 0 && (year % 100 != 0 || year % 400 == 0)
}

fn year_length(year: u16) -> (n: u32)
    ensures
        n == days_in_year(year as int),
{
    if leap(year) {
        366
    } else {
        365
    }
}

fn month_length(year: u16, month: u8) -> (n: u32)
    ensures
        n == days_in_month(year as int, month as int),
        28 <= n <= 31,
{
    if month == 2 {
        if leap(year) {
            29
        } else {
            28
        }
    } else if month == 4 || month == 6 || month == 9 || month == 11 {
        30
    } else {
        31
    }
}

/// A year has as many days as its twelve months together.
pub proof fn lemma_months_make_a_year(year: int)
    ensures
        days_before_month(year, 13) == days_in_year(year),
{
    reveal_with_fuel(days_before_month, 14);
}

/// The date and time of day that come `ts` seconds after the start of 1970.
pub fn time_from_ts(ts: u32) -> (t: Time)
    ensures
        is_time_of(t, ts),
{
    let secs = ts % 86400;
    let h = secs / 3600;
    let m = (secs / 60) % 60;
    let s = secs % 60;
    let days = ts / 86400;
    let mut year: u16 = 1970;
    let mut rest: u32 = days;
    while rest >= year_length(year)
        invariant
            1970 <= year,
            rest <= days,
            days <= 49710,
            (year - 1970) * 365 <= days - rest,
            days == days_before_year(year as int) + rest,
        decreases rest,
    {
        rest = rest - year_length(year);
        year = year + 1;
    }
    let mut month: u8 = 1;
    proof {
        lemma_months_make_a_year(year as int);
    }
    while rest >= month_length(year, month)
        invariant
            1 <= month <= 12,
            rest + days_before_month(year as int, month as int) < days_in_year(year as int),
            days == days_before_year(year as int) + days_before_month(year as int, month as int)
                + rest,
            days_before_month(year as int, 13) == days_in_year(year as int),
        decreases 12 - month,
    {
        proof {
            if month == 12 {
                assert(days_before_month(year as int, 13) == days_before_month(year as int, 12)
                    + days_in_month(year as int, 12));
            }
        }
        rest = rest - month_length(year, month);
        month = month + 1;
    }
    Time {
        year,
        month,
        day: (rest + 1) as u8,
        hour: h as u8,
        minute: m as u8,
        second: s as u8,
        pad1: 0,
        nanosecond: 0,
        timezone: EFI_UNSPECIFIED_TIMEZONE,
        daylight: 0,
        pad2: 0,
    }
}

/// Only one date and time of day come `ts` seconds after the start of 1970.
pub proof fn lemma_time_unique(a: Time, b: Time, ts: u32)
    requires
        is_time_of(a, ts),
        is_time_of(b, ts),
    ensures
        a == b,
{
    lemma_day_in_year(a);
    lemma_day_in_year(b);
    lemma_year_unique(a.year as int, b.year as int, ts as int / 86400);
    lemma_month_unique(a.year as int, a.month as int, b.month as int);
    let da = days_before_month(a.year as int, a.month as int) + a.day;
    let db = days_before_month(b.year as int, b.month as int) + b.day;
    assert(da == db);
}

/// The day of a date is one of the days of its year.
proof fn lemma_day_in_year(t: Time)
    requires
        1 <= t.month <= 12,
        1 <= t.day <= days_in_month(t.year as int, t.month as int),
    ensures
        0 <= days_before_month(t.year as int, t.month as int) + t.day - 1 < days_in_year(
            t.year as int,
        ),
{
    let y = t.year as int;
    lemma_months_make_a_year(y);
    lemma_months_grow(y, 1, t.month as int);
    lemma_months_grow(y, t.month + 1, 13);
}

/// The days before a year grow with the year, by at least 365 a year.
pub proof fn lemma_years_grow(y1: int, y2: int)
    requires
        1970 <= y1 <= y2,
    ensures
        days_before_year(y2) >= days_before_year(y1) + 365 * (y2 - y1),
    decreases y2 - y1,
{
    if y1 < y2 {
        lemma_years_grow(y1, y2 - 1);
    }
}

/// The days before a month grow with the month, by at least 28 a month.
pub proof fn lemma_months_grow(year: int, m1: int, m2: int)
    requires
        1 <= m1 <= m2,
    ensures
        days_before_month(year, m2) >= days_before_month(year, m1) + 28 * (m2 - m1),
    decreases m2 - m1,
{
    if m1 < m2 {
        lemma_months_grow(year, m1, m2 - 1);
    }
}

/// A day lies in one year only.
proof fn lemma_year_unique(y1: int, y2: int, days: int)
    requires
        1970 <= y1,
        1970 <= y2,
        days_before_year(y1) <= days < days_before_year(y1) + days_in_year(y1),
        days_before_year(y2) <= days < days_before_year(y2) + days_in_year(y2),
    ensures
        y1 == y2,
{
    if y1 < y2 {
        lemma_years_grow(y1 + 1, y2);
    } else if y2 < y1 {
        lemma_years_grow(y2 + 1, y1);
    }
}

/// A day of a year lies in one month only.
proof fn lemma_month_unique(year: int, m1: int, m2: int)
    requires
        1 <= m1 <= 12,
        1 <= m2 <= 12,
    ensures
        forall|d1: int, d2: int|
            1 <= d1 <= days_in_month(year, m1) && 1 <= d2 <= days_in_month(year, m2)
                && #[trigger] (days_before_month(year, m1) + d1) == #[trigger] (days_before_month(
                year,
                m2,
            ) + d2) ==> m1 == m2 && d1 == d2,
{
    if m1 < m2 {
        lemma_months_grow(year, m1 + 1, m2);
    } else if m2 < m1 {
        lemma_months_grow(year, m2 + 1, m1);
    }
}

} // verus!
