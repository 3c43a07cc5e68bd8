//! Proleptic Gregorian calendar arithmetic: civil dates are mapped to day
//! counts relative to the Unix epoch (1970-01-01), and civil date-times to
//! UTC epoch seconds. This is the mathematical core of date normalization.

use vstd::prelude::*;

verus! {

/// A year is a leap year when divisible by 4, except centuries, which must be
/// divisible by 400.
pub open spec fn is_leap_year(y: int) -> bool {
    (y % 4 == 0 && y % 100 != 0) || y % 400 == 0
}

pub open spec fn days_in_year(y: int) -> int {
    if is_leap_year(y) {
        366
    } else {
        365
    }
}

/// Number of days in month `m` (1-based) of year `y`.
pub open spec fn days_in_month(y: int, m: int) -> int
    recommends
        1 <= m <= 12,
{
    if m == 2 {
        if is_leap_year(y) {
            29
        } else {
            28
        }
    } else if m == 4 || m == 6 || m == 9 || m == 11 {
        30
    } else {
        31
    }
}

/// Days from 1970-01-01 to the first day of year `y` (negative before 1970).
pub open spec fn days_to_year(y: int) -> int
    decreases
            if y >= 1970 {
                y - 1970
            } else {
                1970 - y
            },
{
    if y == 1970 {
        0
    } else if y > 1970 {
        days_to_year(y - 1) + days_in_year(y - 1)
    } else {
        days_to_year(y + 1) - days_in_year(y)
    }
}

/// Days from the first day of year `y` to the first day of its month `m`.
pub open spec fn days_before_month(y: int, m: int) -> int
    recommends
        1 <= m <= 12,
    decreases m,
{
    if m <= 1 {
        0
    } else {
        days_before_month(y, m - 1) + days_in_month(y, m - 1)
    }
}

/// Days from 1970-01-01 to the civil date `y-m-d` (which may be negative).
pub open spec fn days_from_civil(y: int, m: int, d: int) -> int {
    days_to_year(y) + days_before_month(y, m) + (d - 1)
}

/// True when `y-m-d` names a real date of the calendar, within the four-digit
/// years that the feed grammar can express.
pub open spec fn valid_date(y: int, m: int, d: int) -> bool {
    &&& 0 <= y <= 9999
    &&& 1 <= m <= 12
    &&& 1 <= d <= days_in_month(y, m)
}

/// True when `h:mi:s` names a time of day.
pub open spec fn valid_time(h: int, mi: int, s: int) -> bool {
    &&& 0 <= h < 24
    &&& 0 <= mi < 60
    &&& 0 <= s < 60
}

/// UTC epoch seconds of the civil instant `y-m-d h:mi:s` read as UTC.
pub open spec fn epoch_secs(y: int, m: int, d: int, h: int, mi: int, s: int) -> int {
    86400 * days_from_civil(y, m, d) + 3600 * h + 60 * mi + s
}

pub fn leap_year(y: i32) -> (r: bool)
    requires
        y >= 0,
    ensures
        r == is_leap_year(y as int),
{
    (y % 4 == 0 && y % 100 != 0) || y % 400 == 0
}

pub fn month_length(y: i32, m: u32) -> (r: u32)
    requires
        y >= 0,
        1 <= m <= 12,
    ensures
        r == days_in_month(y as int, m as int),
{
    if m == 2 {
        if leap_year(y) {
            29
        } else {
            28
        }
    } else if m == 4 || m == 6 || m == 9 || m == 11 {
        30
    } else {
        31
    }
}

/// Last day of the given month, as a full civil date (the day before the
/// first of the following month).
pub fn get_last_day_of_month(year: i32, month: u32) -> (r: (i32, u32, u32))
    requires
        0 <= year <= 9999,
        1 <= month <= 12,
    ensures
        r.0 == year,
        r.1 == month,
        r.2 == days_in_month(year as int, month as int),
{
    (year, month, month_length(year, month))
}

fn days_to_year_x(y: i32) -> (r: i64)
    requires
        0 <= y <= 9999,
    ensures
        r == days_to_year(y as int),
        -722000 <= r <= 2940000,
{
    let mut acc: i64 = 0;
    if y >= 1970 {
        let mut yy: i32 = 1970;
        while yy < y
            invariant
                1970 <= yy <= y <= 9999,
                acc == days_to_year(yy as int),
                0 <= acc <= 366 * (yy - 1970),
            decreases y - yy,
        {
            acc = acc + if leap_year(yy) {
                366
            } else {
                365
            };
            yy = yy + 1;
        }
        acc
    } else {
        let mut yy: i32 = 1970;
        while yy > y
            invariant
                0 <= y <= yy <= 1970,
                acc == days_to_year(yy as int),
                -366 * (1970 - yy) <= acc <= 0,
            decreases yy,
        {
            acc = acc - if leap_year(yy - 1) {
                366
            } else {
                365
            };
            yy = yy - 1;
        }
        acc
    }
}

fn days_before_month_x(y: i32, m: u32) -> (r: u32)
    requires
        y >= 0,
        1 <= m <= 12,
    ensures
        r == days_before_month(y as int, m as int),
        r <= 366,
{
    let mut acc: u32 = 0;
    let mut mm: u32 = 1;
    while mm < m
        invariant
            y >= 0,
            1 <= mm <= m <= 12,
            acc == days_before_month(y as int, mm as int),
            acc <= 31 * (mm - 1),
        decreases m - mm,
    {
        acc = acc + month_length(y, mm);
        mm = mm + 1;
    }
    acc
}

/// UTC epoch seconds of a civil date-time read as UTC.
pub fn epoch_secs_utc(y: i32, m: u32, d: u32, h: u32, mi: u32, s: u32) -> (r: i64)
    requires
        valid_date(y as int, m as int, d as int),
        valid_time(h as int, mi as int, s as int),
    ensures
        r == epoch_secs(y as int, m as int, d as int, h as int, mi as int, s as int),
{
    let days: i64 = days_to_year_x(y) + days_before_month_x(y, m) as i64 + (d as i64 - 1);
    86400 * days + 3600 * (h as i64) + 60 * (mi as i64) + s as i64
}

} // verus!
