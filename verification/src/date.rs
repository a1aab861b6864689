//! Calendar dates and second-precision datetimes, held as plain year,
//! month, day (and hour, minute, second) components.  Whether a
//! year/month/day triple names a real calendar date is decided by the
//! `chrono` crate behind a trusted wrapper.

use vstd::prelude::*;

verus! {

/// True for years the format can carry: four decimal digits.
pub open spec fn spec_year_in_range(y: int) -> bool {
    1 <= y <= 9999
}

/// True when a year is a leap year of the Gregorian calendar.
pub open spec fn spec_is_leap_year(y: int) -> bool {
    y % 4 == 0 && (y % 100 != 0 || y % 400 == 0)
}

/// The number of days in a month of the Gregorian calendar.
pub open spec fn spec_days_in_month(y: int, m: int) -> int
    recommends
        1 <= m <= 12,
{
    if m == 2 {
        if spec_is_leap_year(y) {
            29
        } else {
            28
        }
    } else if m == 4 || m == 6 || m == 9 || m == 11 {
        30
    } else {
        31
    }
}

/// True when year, month and day name a Gregorian calendar date within
/// the four-digit year range of the format.
pub open spec fn spec_valid_date(y: int, m: int, d: int) -> bool {
    spec_year_in_range(y) && 1 <= m <= 12 && 1 <= d <= spec_days_in_month(y, m)
}

/// Relies on chrono's `NaiveDate::from_ymd_opt`: for years between 1
/// and 9999 it returns `Some` exactly when the proleptic Gregorian
/// calendar has that date.
#[verifier::external_body]
fn chrono_date_exists(year: u16, month: u8, day: u8) -> (r: bool)
    requires
        spec_year_in_range(year as int),
    ensures
        r == spec_valid_date(year as int, month as int, day as int),
{
    chrono::NaiveDate::from_ymd_opt(year as i32, month as u32, day as u32).is_some()
}

/// A calendar date: year, month and day, always a valid Gregorian date.
#[derive(Clone, Copy, Debug, PartialEq, Eq, Structural)]
pub struct Date {
    pub year: u16,
    pub month: u8,
    pub day: u8,
}

impl Date {
    /// The year component.
    pub open spec fn spec_year(&self) -> int {
        self.year as int
    }

    /// The month component.
    pub open spec fn spec_month(&self) -> int {
        self.month as int
    }

    /// The day component.
    pub open spec fn spec_day(&self) -> int {
        self.day as int
    }

    /// True when the components name a real calendar date.
    pub open spec fn wf(&self) -> bool {
        spec_valid_date(self.year as int, self.month as int, self.day as int)
    }

    /// Builds a date, or returns `None` when the components do not name
    /// a real calendar date of the four-digit year range.
    pub fn new(year: u16, month: u8, day: u8) -> (r: Option<Date>)
        ensures
            r is Some <==> spec_valid_date(year as int, month as int, day as int),
            r matches Some(d) ==> d == (Date { year, month, day }) && d.wf(),
    {
        if year < 1 || year > 9999 {
            return None;
        }
        if chrono_date_exists(year, month, day) {
            Some(Date { year, month, day })
        } else {
            None
        }
    }

    /// Reports whether the components name a real calendar date, by
    /// the same calendar the checked constructor uses.
    pub fn is_wf(&self) -> (r: bool)
        ensures
            r == self.wf(),
    {
        if self.year < 1 || self.year > 9999 {
            return false;
        }
        chrono_date_exists(self.year, self.month, self.day)
    }

    /// The year component.
    pub fn year(&self) -> (r: u16)
        ensures
            r as int == self.spec_year(),
    {
        self.year
    }

    /// The month component.
    pub fn month(&self) -> (r: u8)
        ensures
            r as int == self.spec_month(),
    {
        self.month
    }

    /// The day component.
    pub fn day(&self) -> (r: u8)
        ensures
            r as int == self.spec_day(),
    {
        self.day
    }
}

/// A calendar date with a time of day, to second precision.
#[derive(Clone, Copy, Debug, PartialEq, Eq, Structural)]
pub struct DateTime {
    pub date: Date,
    pub hour: u8,
    pub minute: u8,
    pub second: u8,
}

/// True when hour, minute and second name a time of day.
pub open spec fn spec_valid_time(h: int, mi: int, s: int) -> bool {
    0 <= h < 24 && 0 <= mi < 60 && 0 <= s < 60
}

impl DateTime {
    /// The date part.
    pub open spec fn spec_date(&self) -> Date {
        self.date
    }

    /// The hour component.
    pub open spec fn spec_hour(&self) -> int {
        self.hour as int
    }

    /// The minute component.
    pub open spec fn spec_minute(&self) -> int {
        self.minute as int
    }

    /// The second component.
    pub open spec fn spec_second(&self) -> int {
        self.second as int
    }

    /// True when the date is real and the time is within a day.
    pub open spec fn wf(&self) -> bool {
        self.date.wf() && spec_valid_time(self.hour as int, self.minute as int, self.second as int)
    }

    /// Builds a datetime, or returns `None` when the time components are
    /// out of range.
    pub fn new(date: Date, hour: u8, minute: u8, second: u8) -> (r: Option<DateTime>)
        ensures
            r is Some <==> spec_valid_time(hour as int, minute as int, second as int),
            r matches Some(dt) ==> dt == (DateTime { date, hour, minute, second }) && (date.wf()
                ==> dt.wf()),
    {
        if hour < 24 && minute < 60 && second < 60 {
            Some(DateTime { date, hour, minute, second })
        } else {
            None
        }
    }

    /// Reports whether the date is real and the time within a day.
    pub fn is_wf(&self) -> (r: bool)
        ensures
            r == self.wf(),
    {
        self.date.is_wf() && self.hour < 24 && self.minute < 60 && self.second < 60
    }

    /// The date part.
    pub fn date(&self) -> (r: Date)
        ensures
            r == self.spec_date(),
    {
        self.date
    }

    /// The hour component.
    pub fn hour(&self) -> (r: u8)
        ensures
            r as int == self.spec_hour(),
    {
        self.hour
    }

    /// The minute component.
    pub fn minute(&self) -> (r: u8)
        ensures
            r as int == self.spec_minute(),
    {
        self.minute
    }

    /// The second component.
    pub fn second(&self) -> (r: u8)
        ensures
            r as int == self.spec_second(),
    {
        self.second
    }
}

} // verus!
