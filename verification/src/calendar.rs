//! UTC dates and times of day for the SBS output.

use vstd::prelude::*;
use crate::clock::{left_over, share, SECOND_FS};
use crate::text::write_padded_int;
#[allow(unused_imports)]
use crate::text::padded_int;

verus! {

/// Seconds in one day.
pub const DAY_S: i64 = 86_400;

/// Femtoseconds in a millisecond.
pub const MILLI_FS: i128 = 1_000_000_000_000;

/// The first year of unix time.
pub const EPOCH_YEAR: i64 = 1970;

/// The Gregorian leap year rule.
pub open spec fn is_leap(y: int) -> bool {
    (y % 4 == 0 && y % 100 != 0) || y % 400 == 0
}

/// Days in year `y`.
pub open spec fn year_len(y: int) -> int {
    if is_leap(y) {
        366
    } else {
        365
    }
}

/// Days in month `m` (1 to 12) of year `y`.
pub open spec fn month_len(y: int, m: int) -> int {
    if m == 2 {
        if is_leap(y) {
            29
        } else {
            28
        }
    } else if m == 4 || m == 6 || m == 9 || m == 11 {
        30
    } else {
        31
    }
}

/// Days from the start of 1970 to the start of year `y`; fewer than none for
/// the years before.
pub open spec fn days_before_year(y: int) -> int
    decreases if y > EPOCH_YEAR { y - EPOCH_YEAR } else { EPOCH_YEAR - y },
{
    if y == EPOCH_YEAR {
        0
    } else if y > EPOCH_YEAR {
        days_before_year(y - 1) + year_len(y - 1)
    } else {
        days_before_year(y + 1) - year_len(y)
    }
}

/// Days from the start of year `y` to the start of its month `m`.
pub open spec fn days_before_month(y: int, m: int) -> int
    decreases m,
{
    if m <= 1 {
        0
    } else {
        days_before_month(y, m - 1) + month_len(y, m - 1)
    }
}

/// Days from 1970-01-01 to a date.
pub open spec fn day_number(year: int, month: int, day: int) -> int {
    days_before_year(year) + days_before_month(year, month) + day - 1
}

/// A calendar date.
#[derive(Clone, Copy, PartialEq, Eq, Debug)]
pub struct Date {
    pub year: i64,
    /// 1 to 12.
    pub month: i64,
    /// From 1.
    pub day: i64,
}

impl Date {
    /// A day that exists.
    pub open spec fn is_real(self) -> bool {
        &&& 1 <= self.month <= 12
        &&& 1 <= self.day <= month_len(self.year as int, self.month as int)
    }

    /// Days since 1970-01-01.
    pub open spec fn number(self) -> int {
        day_number(self.year as int, self.month as int, self.day as int)
    }

    /// `yyyy/mm/dd`.
    pub open spec fn text(self) -> Seq<char> {
        padded_int(self.year as int, 4) + seq!['/'] + padded_int(self.month as int, 2) + seq!['/']
            + padded_int(self.day as int, 2)
    }
}

/// `d` is the date of day number `days`.
pub open spec fn is_date_of(d: Date, days: int) -> bool {
    d.is_real() && d.number() == days
}

/// The date of day number `days`.
pub open spec fn date_at(days: int) -> Date {
    choose|d: Date| is_date_of(d, days)
}

/// The day number of a unix time.
pub open spec fn whole_days(secs: int) -> int {
    secs / (DAY_S as int)
}

/// `hh:mm:ss.mmm`.
pub open spec fn time_text(secs: int, millis: int) -> Seq<char> {
    let tod = secs % (DAY_S as int);
    padded_int(tod / 3600, 2) + seq![':'] + padded_int((tod / 60) % 60, 2) + seq![':'] + padded_int(
        tod % 60,
        2,
    ) + seq!['.'] + padded_int(millis, 3)
}

/// `x` held to the range of a 64-bit number.
pub open spec fn clip64(x: int) -> i64 {
    if x < i64::MIN {
        i64::MIN
    } else if x > i64::MAX {
        i64::MAX
    } else {
        x as i64
    }
}

/// The whole seconds of a stamp, rounded down.
pub open spec fn whole_seconds(stamp_fs: int) -> i64 {
    clip64(stamp_fs / (SECOND_FS as int))
}

/// The whole milliseconds that a stamp has beyond its whole seconds.
pub open spec fn over_millis(stamp_fs: int) -> i64 {
    ((stamp_fs % (SECOND_FS as int)) / (MILLI_FS as int)) as i64
}

/// `yyyy/mm/dd` of a stamp, in UTC.
pub open spec fn date_text(stamp_fs: int) -> Seq<char> {
    date_at(whole_days(whole_seconds(stamp_fs) as int)).text()
}

/// `hh:mm:ss.mmm` of a stamp, in UTC.
pub open spec fn clock_text(stamp_fs: int) -> Seq<char> {
    time_text(whole_seconds(stamp_fs) as int, over_millis(stamp_fs) as int)
}

fn leap(y: i64) -> (r: bool)
    ensures
        r == is_leap(y as int),
{
    // The rule repeats every 400 years.
    let cycle: i128 = share(y as i128, 400);
    let z: i128 = y as i128 - 400 * cycle;
    (z % 4 == 0 && z % 100 != 0) || z % 400 == 0
}

fn days_in_year(y: i64) -> (r: i64)
    ensures
        r == year_len(y as int),
{
    if leap(y) {
        366
    } else {
        365
    }
}

fn days_in_month(y: i64, m: i64) -> (r: i64)
    ensures
        r == month_len(y as int, m as int),
{
    if m == 2 {
        if leap(y) {
            29
        } else {
            28
        }
    } else if m == 4 || m == 6 || m == 9 || m == 11 {
        30
    } else {
        31
    }
}

proof fn lemma_year_end(y: int)
    ensures
        days_before_month(y, 12) + month_len(y, 12) == year_len(y),
{
    reveal_with_fuel(days_before_month, 13);
}

/// The date of a day number.
pub fn date_of(days: i64) -> (d: Date)
    ensures
        is_date_of(d, days as int),
        d == date_at(days as int),
{
    let d = find_date(days);
    proof {
        law_one_date_per_day(d, date_at(days as int), days as int);
    }
    d
}

/// The year of a day number, and the day of the year from 0.
fn find_year(days: i64) -> (r: (i64, i64))
    ensures
        days_before_year(r.0 as int) + r.1 == days,
        0 <= r.1 < year_len(r.0 as int),
{
    let mut year: i64 = EPOCH_YEAR;
    let mut rem: i64 = days;
    if days < 0 {
        while rem < 0
            invariant
                rem < 366,
                i64::MIN <= days <= rem,
                year <= EPOCH_YEAR,
                365 * (EPOCH_YEAR - year) <= rem - days,
                days_before_year(year as int) + rem == days,
                rem >= 0 ==> rem < year_len(year as int),
            decreases 366 - rem,
        {
            year = year - 1;
            rem = rem + days_in_year(year);
        }
        return (year, rem);
    }
    let mut len: i64 = days_in_year(year);
    while rem >= len
        invariant
            EPOCH_YEAR <= year,
            365 * (year - EPOCH_YEAR) <= days - rem,
            0 <= rem <= days,
            days_before_year(year as int) + rem == days,
            len == year_len(year as int),
        decreases rem,
    {
        rem = rem - len;
        year = year + 1;
        len = days_in_year(year);
    }
    (year, rem)
}

fn find_date(days: i64) -> (d: Date)
    ensures
        is_date_of(d, days as int),
{
    let (year, rest) = find_year(days);
    let mut rem: i64 = rest;
    let mut len: i64 = days_in_month(year, 1);
    let mut month: i64 = 1;
    while rem >= len
        invariant
            1 <= month <= 12,
            0 <= rem,
            len == month_len(year as int, month as int),
            days_before_year(year as int) + days_before_month(year as int, month as int) + rem
                == days,
            days_before_month(year as int, month as int) + rem < year_len(year as int),
        decreases rem,
    {
        proof {
            if month == 12 {
                lemma_year_end(year as int);
            }
        }
        rem = rem - len;
        month = month + 1;
        len = days_in_month(year, month);
    }
    Date { year, month, day: rem + 1 }
}

/// The day number of a unix time, and the second of the day.
fn day_and_second(secs: i64) -> (r: (i64, i64))
    ensures
        r.0 == whole_days(secs as int),
        r.1 == secs as int % (DAY_S as int),
{
    let days: i128 = share(secs as i128, DAY_S as i128);
    assert(DAY_S == 86_400);
    (days as i64, (secs as i128 - days * DAY_S as i128) as i64)
}

fn write_date(d: Date) -> (r: String)
    ensures
        r@ == d.text(),
{
    let mut date = write_padded_int(d.year, 4);
    date.push('/');
    date.append(write_padded_int(d.month, 2).as_str());
    date.push('/');
    date.append(write_padded_int(d.day, 2).as_str());
    assert(date@ =~= d.text());
    date
}

fn held64(x: i128) -> (r: i64)
    ensures
        r == clip64(x as int),
{
    if x < i64::MIN as i128 {
        i64::MIN
    } else if x > i64::MAX as i128 {
        i64::MAX
    } else {
        x as i64
    }
}

/// The whole seconds of a stamp and the milliseconds beyond them.
fn seconds_of(stamp_fs: i128) -> (r: (i64, i64))
    ensures
        r.0 == whole_seconds(stamp_fs as int),
        r.1 == over_millis(stamp_fs as int),
{
    let millis: i128 = left_over(stamp_fs, SECOND_FS) / MILLI_FS;
    (held64(share(stamp_fs, SECOND_FS)), millis as i64)
}

/// SBS rows carry date/time strings: UTC of the unix stamp, its milliseconds
/// rounded down.
pub fn sbs_datetime(stamp_fs: i128) -> (r: (String, String))
    ensures
        r.0@ == date_text(stamp_fs as int),
        r.1@ == clock_text(stamp_fs as int),
{
    let (secs, millis) = seconds_of(stamp_fs);
    let (days, tod) = day_and_second(secs);
    let date = write_date(date_of(days));
    let mut time = write_padded_int(tod / 3600, 2);
    time.push(':');
    time.append(write_padded_int((tod / 60) % 60, 2).as_str());
    time.push(':');
    time.append(write_padded_int(tod % 60, 2).as_str());
    time.push('.');
    time.append(write_padded_int(millis, 3).as_str());
    assert(time@ =~= time_text(secs as int, millis as int));
    (date, time)
}

/// A day has one date: two dates of the same day number are the same.
pub proof fn law_one_date_per_day(a: Date, b: Date, days: int)
    requires
        is_date_of(a, days),
        is_date_of(b, days),
    ensures
        a == b,
{
    law_dates_follow_days(a, b);
    law_dates_follow_days(b, a);
}

/// Later days have later dates.
pub proof fn law_dates_follow_days(a: Date, b: Date)
    requires
        a.is_real(),
        b.is_real(),
    ensures
        a.number() < b.number() <==> (a.year < b.year || (a.year == b.year && (a.month < b.month
            || (a.month == b.month && a.day < b.day)))),
{
    lemma_within_year(a);
    lemma_within_year(b);
    if a.year < b.year {
        lemma_years_grow(a.year + 1, b.year as int);
    } else if b.year < a.year {
        lemma_years_grow(b.year + 1, a.year as int);
    } else if a.month < b.month {
        lemma_months_grow(a.year as int, a.month + 1, b.month as int);
    } else if b.month < a.month {
        lemma_months_grow(a.year as int, b.month + 1, a.month as int);
    }
}

/// A day from 1970 on has a date.
pub proof fn lemma_has_date(days: int) -> (d: Date)
    requires
        0 <= days <= 0x1000_0000,
    ensures
        is_date_of(d, days),
{
    let y = lemma_year_of(days, days);
    lemma_next_year(y);
    lemma_year_end(y);
    let m = lemma_month_of(y, days - days_before_year(y), 12);
    Date {
        year: y as i64,
        month: m as i64,
        day: (days - days_before_year(y) - days_before_month(y, m) + 1) as i64,
    }
}

proof fn lemma_year_of(days: int, n: int) -> (y: int)
    requires
        0 <= days <= n,
    ensures
        EPOCH_YEAR <= y <= EPOCH_YEAR + n,
        days_before_year(y) <= days < days_before_year(y + 1),
    decreases n,
{
    if n == 0 {
        lemma_next_year(EPOCH_YEAR as int);
        EPOCH_YEAR as int
    } else if days == n {
        let y = lemma_year_of(days - 1, n - 1);
        lemma_next_year(y + 1);
        if days < days_before_year(y + 1) {
            y
        } else {
            y + 1
        }
    } else {
        lemma_year_of(days, n - 1)
    }
}

proof fn lemma_month_of(y: int, rest: int, n: int) -> (m: int)
    requires
        1 <= n <= 12,
        0 <= rest < days_before_month(y, n) + month_len(y, n),
    ensures
        1 <= m <= n,
        days_before_month(y, m) <= rest < days_before_month(y, m) + month_len(y, m),
    decreases n,
{
    if rest >= days_before_month(y, n) {
        n
    } else {
        lemma_month_of(y, rest, n - 1)
    }
}

proof fn lemma_next_year(y: int)
    ensures
        days_before_year(y + 1) == days_before_year(y) + year_len(y),
{
    if y >= EPOCH_YEAR {
        assert(days_before_year(y + 1) == days_before_year((y + 1) - 1) + year_len((y + 1) - 1));
    }
}

pub proof fn lemma_years_grow(a: int, b: int)
    requires
        a <= b,
    ensures
        days_before_year(a) <= days_before_year(b),
    decreases b - a,
{
    if a < b {
        lemma_years_grow(a, b - 1);
        lemma_next_year(b - 1);
    }
}

proof fn lemma_months_grow(y: int, a: int, b: int)
    requires
        1 <= a <= b,
    ensures
        days_before_month(y, a) <= days_before_month(y, b),
    decreases b - a,
{
    if a < b {
        lemma_months_grow(y, a, b - 1);
    }
}

proof fn lemma_within_year(d: Date)
    requires
        d.is_real(),
    ensures
        days_before_year(d.year as int) <= d.number() < days_before_year(d.year + 1),
{
    lemma_next_year(d.year as int);
    lemma_year_end(d.year as int);
    lemma_months_grow(d.year as int, 1, d.month as int);
    lemma_months_grow(d.year as int, d.month as int, 12);
    if d.month < 12 {
        lemma_months_grow(d.year as int, d.month + 1, 12);
    }
}


/// The calendar is the Gregorian one: it counts from 1970-01-01; its months have
/// the days that they have, February one more in every fourth year but not in
/// every hundredth, yet in every 400th; each month follows the one before and
/// each year the December before.
pub proof fn law_the_calendar_is_gregorian(y: int, m: int, d: int)
    ensures
        day_number(1970, 1, 1) == 0,
        day_number(y, m, d + 1) == day_number(y, m, d) + 1,
        1 <= m < 12 ==> day_number(y, m + 1, 1) == day_number(y, m, 1) + (if m == 2 {
            if y % 400 == 0 || (y % 4 == 0 && y % 100 != 0) {
                29int
            } else {
                28
            }
        } else if m == 4 || m == 6 || m == 9 || m == 11 {
            30
        } else {
            31
        }),
        day_number(y + 1, 1, 1) == day_number(y, 12, 1) + 31,
{
    reveal_with_fuel(days_before_month, 13);
}

} // verus!
