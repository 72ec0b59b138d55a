//! Calendar dates of the proleptic Gregorian calendar, their order, and the
//! `day/month/year` text form that spreadsheets carry.

use vstd::prelude::*;
use chrono::Datelike;

verus! {

/// A day, month and year held as plain numbers.
///
/// Any three numbers can be written down; [`Date::is_valid`] tells whether
/// they name a day of the calendar.
#[derive(Clone, Copy, Debug, PartialEq, Eq, Structural)]
pub struct Date {
    pub year: i32,
    pub month: u32,
    pub day: u32,
}

/// Whether `year` has a 29th of February.
pub open spec fn is_leap_year(year: int) -> bool {
    year % 4 == 0 && (year % 100 != 0 || year % 400 == 0)
}

/// Number of days of `month` in `year`; 0 where `month` is no month.
pub open spec fn days_in_month(year: int, month: int) -> int {
    if month == 2 {
        if is_leap_year(year) { 29 } else { 28 }
    } else if month == 4 || month == 6 || month == 9 || month == 11 {
        30
    } else if 1 <= month <= 12 {
        31
    } else {
        0
    }
}

/// Whether the three numbers name a day of the calendar.
pub open spec fn is_calendar_date(year: int, month: int, day: int) -> bool {
    1 <= month <= 12 && 1 <= day <= days_in_month(year, month)
}

/// What `chrono::NaiveDate::parse_from_str` with the format `%d/%m/%Y` makes
/// of a text: the year, month and day of the date it returns, or `None`
/// where it refuses the text.
pub uninterp spec fn day_month_year_reading(text: Seq<char>) -> Option<(i32, u32, u32)>;

/// Calls `chrono::NaiveDate::parse_from_str(text, "%d/%m/%Y")` and hands out
/// the year, month and day of the date it returns.
///
/// Trusted: the result is the reading named by [`day_month_year_reading`],
/// and a date that chrono returns is a day of the calendar, with the month
/// counted from 1 to 12 and the day from 1.
#[verifier::external_body]
fn read_day_month_year(text: &str) -> (r: Option<(i32, u32, u32)>)
    ensures
        r == day_month_year_reading(text@),
        r matches Some(n) ==> is_calendar_date(n.0 as int, n.1 as int, n.2 as int),
{
    match chrono::NaiveDate::parse_from_str(text, "%d/%m/%Y") {
        Ok(d) => Some((d.year(), d.month(), d.day())),
        Err(_) => None,
    }
}

/// The date that a text in the form day, month, year gives under chrono's
/// reading, or `None` where chrono refuses the text.
pub open spec fn parsed_date(text: Seq<char>) -> Option<Date> {
    match day_month_year_reading(text) {
        Some((year, month, day)) => Some(Date { year, month, day }),
        None => None,
    }
}

impl Date {
    /// Whether this is a day of the calendar.
    pub open spec fn valid(self) -> bool {
        is_calendar_date(self.year as int, self.month as int, self.day as int)
    }

    /// Whether `self` is an earlier day than `other`: years first, then
    /// months, then days.
    pub open spec fn precedes(self, other: Date) -> bool {
        self.year < other.year || (self.year == other.year && (self.month < other.month || (
        self.month == other.month && self.day < other.day)))
    }

    /// Builds the date from its three numbers, valid or not.
    pub fn new(year: i32, month: u32, day: u32) -> (d: Date)
        ensures
            d == (Date { year, month, day }),
    {
        Date { year, month, day }
    }

    /// Tells whether the date is a day of the calendar.
    pub fn is_valid(&self) -> (b: bool)
        ensures
            b == self.valid(),
    {
        if self.month < 1 || self.month > 12 || self.day < 1 {
            return false;
        }
        let leap = self.year % 4 == 0 && (self.year % 100 != 0 || self.year % 400 == 0);
        let last: u32 = if self.month == 2 {
            if leap { 29 } else { 28 }
        } else if self.month == 4 || self.month == 6 || self.month == 9 || self.month == 11 {
            30
        } else {
            31
        };
        self.day <= last
    }

    /// Tells whether `self` is an earlier day than `other`.
    pub fn is_before(&self, other: &Date) -> (b: bool)
        ensures
            b == self.precedes(*other),
    {
        self.year < other.year || (self.year == other.year && (self.month < other.month || (
        self.month == other.month && self.day < other.day)))
    }

    /// Reads a date written as day, month and year with `/` between them.
    ///
    /// The reading is chrono's, under the format `%d/%m/%Y`; a text that
    /// chrono refuses gives `None`, and a date that comes back is valid.
    pub fn parse_day_month_year(text: &str) -> (r: Option<Date>)
        ensures
            r == parsed_date(text@),
            r matches Some(d) ==> d.valid(),
    {
        match read_day_month_year(text) {
            Some((year, month, day)) => Some(Date { year, month, day }),
            None => None,
        }
    }
}

} // verus!
