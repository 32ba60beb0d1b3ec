use vstd::prelude::*;

verus! {

/// The unit of time that a range of dates spans.
#[derive(Debug, PartialEq, Eq, Structural, Clone, Copy)]
pub enum Granularity {
    Day,
    Month,
    Year,
}

/// Whether `y` is a leap year of the Gregorian calendar.
pub open spec fn is_leap_year(y: int) -> bool {
    y % 4 == 0 && (y % 100 != 0 || y % 400 == 0)
}

/// The number of days of month `m` (1 to 12) in year `y`.
pub open spec fn spec_days_in_month(m: int, y: int) -> int {
    if m == 2 {
        if is_leap_year(y) { 29 } else { 28 }
    } else if m == 4 || m == 6 || m == 9 || m == 11 {
        30
    } else {
        31
    }
}

pub fn days_in_month(m: u32, y: i32) -> (days: u32)
    requires
        1 <= m <= 12,
    ensures
        days == spec_days_in_month(m as int, y as int),
        28 <= days <= 31,
{
    if m == 2 {
        if y % 4 == 0 && (y % 100 != 0 || y % 400 == 0) { 29 } else { 28 }
    } else if m == 4 || m == 6 || m == 9 || m == 11 {
        30
    } else {
        31
    }
}

/// A day of the calendar as plain numbers. While days are added the day
/// is 0 for a moment: the eve of the first of the month.
pub struct Ymd {
    pub year: int,
    pub month: int,
    pub day: int,
}

/// The date `d` days after `at`, going month by month.
pub open spec fn days_later(at: Ymd, d: int) -> Ymd
    decreases 2 * d + (if at.day >= spec_days_in_month(at.month, at.year) { 1int } else { 0int }),
{
    if d <= 0 || at.day < 0 {
        at
    } else {
        let room = spec_days_in_month(at.month, at.year) - at.day;
        let diff = if room < 0 { 0 } else if room < d { room } else { d };
        if d - diff > 0 {
            if at.month + 1 > 12 {
                days_later(Ymd { year: at.year + 1, month: 1, day: 0 }, d - diff)
            } else {
                days_later(Ymd { year: at.year, month: at.month + 1, day: 0 }, d - diff)
            }
        } else {
            Ymd { day: at.day + diff, ..at }
        }
    }
}

/// The month and year `m` months after month `month` of `year`.
pub open spec fn months_later(year: int, month: int, m: int) -> (int, int)
    decreases 2 * m + (if month >= 12 { 1int } else { 0int }),
{
    if m <= 0 || month < 0 {
        (year, month)
    } else {
        let room = 12 - month;
        let diff = if room < 0 { 0 } else if room < m { room } else { m };
        if m - diff > 0 {
            months_later(year + 1, 0, m - diff)
        } else {
            (year, month + diff)
        }
    }
}

/// The date `y` years, `m` months and `d` days after `at`: the days are
/// added first, then the months, then the years, and a day that the
/// month reached does not have becomes its last day.
pub open spec fn spec_date_add(at: Ymd, y: int, m: int, d: int) -> Ymd {
    let by_days = days_later(at, d);
    let by_months = months_later(by_days.year, by_days.month, m);
    let year = by_months.0 + y;
    let last = spec_days_in_month(by_months.1, year);
    Ymd { year, month: by_months.1, day: if by_days.day < last { by_days.day } else { last } }
}

fn month_length(m: u32, y: i64) -> (days: u32)
    ensures
        days == spec_days_in_month(m as int, y as int),
{
    if m == 2 {
        if y % 4 == 0 && (y % 100 != 0 || y % 400 == 0) { 29 } else { 28 }
    } else if m == 4 || m == 6 || m == 9 || m == 11 {
        30
    } else {
        31
    }
}

/// The year, month and day that lie `y` years, `m` months and `d` days
/// after the day `day` of month `month` of `year`.
pub fn date_add(year: i32, month: u32, day: u32, y: i32, m: u32, d: u32) -> (r: (i64, u32, u32))
    requires
        1 <= month <= 12,
        1 <= day <= spec_days_in_month(month as int, year as int),
    ensures
        (Ymd { year: r.0 as int, month: r.1 as int, day: r.2 as int }) == spec_date_add(
            Ymd { year: year as int, month: month as int, day: day as int },
            y as int,
            m as int,
            d as int,
        ),
        1 <= r.1 <= 12,
        1 <= r.2 <= spec_days_in_month(r.1 as int, r.0 as int),
{
    let ghost start = Ymd { year: year as int, month: month as int, day: day as int };
    let mut yy: i64 = year as i64;
    let mut mm: u32 = month;
    let mut dd: u32 = day;
    let mut d: u32 = d;
    let ghost d0 = d as int;
    while d > 0
        invariant
            1 <= mm <= 12,
            0 <= dd <= spec_days_in_month(mm as int, yy as int),
            d > 0 || dd >= 1,
            days_later(Ymd { year: yy as int, month: mm as int, day: dd as int }, d as int)
                == days_later(start, d0),
            year <= yy,
            d0 <= u32::MAX,
            yy + 2 * d + (if dd >= spec_days_in_month(mm as int, yy as int) { 1int } else { 0int })
                <= year + 2 * d0 + 1,
        decreases 2 * d + (if dd >= spec_days_in_month(mm as int, yy as int) { 1int } else { 0int }),
    {
        let room = month_length(mm, yy) - dd;
        let diff = if room < d { room } else { d };
        dd = dd + diff;
        d = d - diff;
        if d > 0 {
            dd = 0;
            mm = mm + 1;
            if mm > 12 {
                yy = yy + 1;
                mm = 1;
            }
        }
    }
    let ghost by_days = Ymd { year: yy as int, month: mm as int, day: dd as int };
    let mut m: u32 = m;
    let ghost m0 = m as int;
    let ghost y1 = yy as int;
    while m > 0
        invariant
            0 <= mm <= 12,
            m > 0 || mm >= 1,
            months_later(yy as int, mm as int, m as int) == months_later(
                by_days.year,
                by_days.month,
                m0,
            ),
            y1 <= yy,
            m0 <= u32::MAX,
            yy + 2 * m + (if mm >= 12 { 1int } else { 0int }) <= y1 + 2 * m0 + 1,
            y1 <= i32::MAX + 2 * u32::MAX + 1,
        decreases 2 * m + (if mm >= 12 { 1int } else { 0int }),
    {
        let room = 12 - mm;
        let diff = if room < m { room } else { m };
        mm = mm + diff;
        m = m - diff;
        if m > 0 {
            mm = 0;
            yy = yy + 1;
        }
    }
    yy = yy + (y as i64);
    let last = month_length(mm, yy);
    if dd > last {
        dd = last;
    }
    (yy, mm, dd)
}

/// The year and month of the first day after month `month` of `year`.
pub fn startof_next_month(year: i32, month: u32) -> (r: (i64, u32))
    requires
        1 <= month <= 12,
    ensures
        r.0 == year + (if month == 12 { 1int } else { 0int }),
        r.1 == (if month == 12 { 1int } else { month + 1 }),
{
    if month == 12 {
        (year as i64 + 1, 1)
    } else {
        (year as i64, month + 1)
    }
}

/// The year of the first day after `year`.
pub fn startof_next_year(year: i32) -> (r: i64)
    ensures
        r == year + 1,
{
    year as i64 + 1
}

} // verus!
