//! Calendar dates and the ISO-8601 week they fall in.

use vstd::prelude::*;

verus! {

/// The largest year that a date can carry: the last one written with four
/// digits.
pub const MAX_YEAR: u16 = 9999;

/// Leap years of the proleptic Gregorian calendar.
pub open spec fn is_leap_year(year: int) -> bool {
    year % 4 == 0 && (year % 100 != 0 || year % 400 == 0)
}

/// The number of days of `month` in `year`; 0 where there is no such month.
pub open spec fn month_length(year: int, month: int) -> int {
    if month == 2 {
        if is_leap_year(year) {
            29
        } else {
            28
        }
    } else if month == 4 || month == 6 || month == 9 || month == 11 {
        30
    } else if 1 <= month <= 12 {
        31
    } else {
        0
    }
}

/// There is a day `day` in month `month` of year `year`.
pub open spec fn is_calendar_date(year: int, month: int, day: int) -> bool {
    1 <= month <= 12 && 1 <= day <= month_length(year, month)
}

/// The year of the ISO-8601 week that holds the calendar date: what
/// `chrono::naive::IsoWeek::year` gives for it.
pub uninterp spec fn iso_week_year(year: int, month: int, day: int) -> int;

/// The number of the ISO-8601 week that holds the calendar date: what
/// `chrono::naive::IsoWeek::week` gives for it.
pub uninterp spec fn iso_week_number(year: int, month: int, day: int) -> int;

/// `chrono::NaiveDate::from_ymd_opt`, and on the date it makes
/// `Datelike::iso_week` with `IsoWeek::year` and `IsoWeek::week`.
///
/// Nothing is proved of this function. It claims that chrono knows a date for
/// every day of the proleptic Gregorian calendar in the years that a `u16`
/// can hold, and for nothing else; that the ISO week of a date depends on the
/// date alone; and that a week number lies between 1 and 53.
#[verifier::external_body]
fn chrono_iso_week(year: u16, month: u8, day: u8) -> (r: Option<(i32, u32)>)
    ensures
        r is Some <==> is_calendar_date(year as int, month as int, day as int),
        r matches Some(w) ==> {
            &&& w.0 == iso_week_year(year as int, month as int, day as int)
            &&& w.1 == iso_week_number(year as int, month as int, day as int)
            &&& 1 <= w.1 <= 53
        },
{
    match chrono::NaiveDate::from_ymd_opt(i32::from(year), u32::from(month), u32::from(day)) {
        Some(d) => {
            let w = chrono::Datelike::iso_week(&d);
            Some((w.year(), w.week()))
        },
        None => None,
    }
}

/// An ISO-8601 week: Monday to Sunday, numbered within its own year, which
/// near the turn of the year is not the calendar year of all its days.
#[derive(Clone, Copy, Debug, PartialEq, Eq, Structural)]
pub struct IsoWeek {
    pub year: i32,
    pub week: u32,
}

/// A calendar date.
#[derive(Clone, Copy, Debug, PartialEq, Eq, Structural)]
pub struct Date {
    pub year: u16,
    pub month: u8,
    pub day: u8,
}

impl Date {
    /// A date is well formed when the calendar has it and its year has at
    /// most four digits.
    pub open spec fn wf(self) -> bool {
        self.year <= MAX_YEAR && is_calendar_date(
            self.year as int,
            self.month as int,
            self.day as int,
        )
    }

    /// A number that orders dates as the calendar does; different dates have
    /// different keys.
    pub open spec fn key(self) -> int {
        self.year * 65536 + self.month * 256 + self.day
    }

    /// The calendar has this date, and its ISO week is week `week` of the
    /// ISO year `year`.
    pub open spec fn in_iso_week(self, year: int, week: int) -> bool {
        &&& is_calendar_date(self.year as int, self.month as int, self.day as int)
        &&& iso_week_year(self.year as int, self.month as int, self.day as int) == year
        &&& iso_week_number(self.year as int, self.month as int, self.day as int) == week
    }

    /// The date of the given year, month and day, if the calendar has it and
    /// the year is at most `MAX_YEAR`.
    pub fn new(year: u16, month: u8, day: u8) -> (r: Option<Date>)
        ensures
            r == (if (Date { year, month, day }).wf() {
                Some(Date { year, month, day })
            } else {
                None
            }),
    {
        if year > MAX_YEAR {
            return None;
        }
        match chrono_iso_week(year, month, day) {
            Some(_) => Some(Date { year, month, day }),
            None => None,
        }
    }

    /// Whether this date is well formed.
    pub fn is_valid(&self) -> (r: bool)
        ensures
            r == self.wf(),
    {
        Date::new(self.year, self.month, self.day).is_some()
    }

    /// The key of this date.
    pub fn sort_key(&self) -> (k: u32)
        ensures
            k == self.key(),
    {
        let y: u32 = self.year as u32;
        let m: u32 = self.month as u32;
        let d: u32 = self.day as u32;
        y * 65536 + m * 256 + d
    }

    /// Whether this date comes before `other` in the calendar.
    pub fn is_before(&self, other: &Date) -> (r: bool)
        ensures
            r == (self.key() < other.key()),
    {
        self.sort_key() < other.sort_key()
    }

    /// The ISO week that holds this date, if the calendar has the date.
    pub fn iso_week(&self) -> (r: Option<IsoWeek>)
        ensures
            r is Some <==> is_calendar_date(self.year as int, self.month as int, self.day as int),
            r matches Some(w) ==> self.in_iso_week(w.year as int, w.week as int) && 1 <= w.week
                <= 53,
    {
        match chrono_iso_week(self.year, self.month, self.day) {
            Some(w) => Some(IsoWeek { year: w.0, week: w.1 }),
            None => None,
        }
    }
}

/// Dates are equal exactly when their keys are.
pub proof fn lemma_key_injective(a: Date, b: Date)
    ensures
        a.key() == b.key() <==> a == b,
{
}

} // verus!
