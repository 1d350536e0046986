//! Calendar dates.

use vstd::prelude::*;
use crate::order::Ranked;

verus! {

/// A day of the proleptic Gregorian calendar, by year, month (1 to 12) and
/// day of the month (from 1).
#[derive(Clone, Copy, Debug, PartialEq, Eq, Hash, Structural)]
pub struct Date {
    pub year: i32,
    pub month: u8,
    pub day: u8,
}

pub open spec fn is_leap_year(year: int) -> bool {
    year % 4 == 0 && (year % 100 != 0 || year % 400 == 0)
}

pub open spec fn days_in_month(year: int, month: int) -> int {
    if month == 2 {
        if is_leap_year(year) {
            29
        } else {
            28
        }
    } else if month == 4 || month == 6 || month == 9 || month == 11 {
        30
    } else {
        31
    }
}

/// The dates that exist: a year from -9999 to 9999, a month from 1 to 12 and a
/// day that the month has in that year.
pub open spec fn is_calendar_date(year: int, month: int, day: int) -> bool {
    &&& -9999 <= year <= 9999
    &&& 1 <= month <= 12
    &&& 1 <= day <= days_in_month(year, month)
}

/// Calls `time::Month::try_from` and `time::Date::from_calendar_date`, and
/// tells whether they accept the three numbers. The contract claims that they
/// accept exactly the dates of the proleptic Gregorian calendar whose year lies
/// between -9999 and 9999.
#[verifier::external_body]
fn calendar_date_exists(year: i32, month: u8, day: u8) -> (r: bool)
    ensures
        r == is_calendar_date(year as int, month as int, day as int),
{
    match time::Month::try_from(month) {
        Ok(m) => time::Date::from_calendar_date(year, m, day).is_ok(),
        Err(_) => false,
    }
}

/// The date that `time` reads from a text in the form year, month, day with
/// hyphens between them: see `read_iso_date`.
pub uninterp spec fn iso_date(s: Seq<char>) -> Option<Date>;

/// The text that `time` writes for a date: see `write_iso_date`.
pub uninterp spec fn iso_text(d: Date) -> Seq<char>;

/// The number of a day in the count that runs on through the years (the
/// Julian day): see `julian_day_of`.
pub uninterp spec fn julian_day(d: Date) -> int;

/// The short text that `time` writes for a date, the month by the first
/// letters of its name and then the day: see `write_short_date`.
pub uninterp spec fn short_text(d: Date) -> Seq<char>;

/// Parses `s` with `time::Date::parse` and the format that
/// `time::format_description::parse` makes of `[year]-[month]-[day]`. The
/// contract names the result after the text, and claims that a date that comes
/// out is one that exists.
#[verifier::external_body]
fn read_iso_date(s: &str) -> (r: Option<Date>)
    ensures
        r == iso_date(s@),
        r matches Some(d) ==> d.valid(),
{
    let format = time::format_description::parse("[year]-[month]-[day]").ok()?;
    let d = time::Date::parse(s, &format).ok()?;
    Some(Date { year: d.year(), month: u8::from(d.month()), day: d.day() })
}

/// Makes a `time::Date` with `time::Date::from_calendar_date` and writes it
/// with its `Display`. The contract names the result after the date. The
/// date has to exist, or there is no `time::Date` to write.
#[verifier::external_body]
fn write_iso_date(d: &Date) -> (r: String)
    requires
        d.valid(),
    ensures
        r@ == iso_text(*d),
{
    let month = time::Month::try_from(d.month).unwrap();
    time::Date::from_calendar_date(d.year, month, d.day).unwrap().to_string()
}

/// Makes a `time::Date` with `time::Date::from_calendar_date` and asks it for
/// `to_julian_day`. The contract names the result after the date. The date
/// has to exist, or there is no `time::Date` to ask.
#[verifier::external_body]
fn julian_day_of(d: &Date) -> (r: i32)
    requires
        d.valid(),
    ensures
        r == julian_day(*d),
{
    let month = time::Month::try_from(d.month).unwrap();
    time::Date::from_calendar_date(d.year, month, d.day).unwrap().to_julian_day()
}

/// Makes a `time::Date` with `time::Date::from_calendar_date` and writes it
/// with `time::Date::format` and the format that
/// `time::format_description::parse` makes of `[month repr:short] [day]`. The
/// contract names the result after the date. The date has to exist, or
/// there is no `time::Date` to write.
#[verifier::external_body]
fn write_short_date(d: &Date) -> (r: String)
    requires
        d.valid(),
    ensures
        r@ == short_text(*d),
{
    let month = time::Month::try_from(d.month).unwrap();
    let date = time::Date::from_calendar_date(d.year, month, d.day).unwrap();
    let format = time::format_description::parse("[month repr:short] [day]").unwrap();
    date.format(&format).unwrap()
}

impl Date {
    /// This value names a day that exists.
    pub open spec fn valid(self) -> bool {
        is_calendar_date(self.year as int, self.month as int, self.day as int)
    }

    /// `self` is an earlier day than `other`.
    pub open spec fn earlier(self, other: Date) -> bool {
        ||| self.year < other.year
        ||| self.year == other.year && self.month < other.month
        ||| self.year == other.year && self.month == other.month && self.day < other.day
    }

    /// The date with this year, month and day, if there is such a day.
    pub fn from_calendar_date(year: i32, month: u8, day: u8) -> (r: Option<Date>)
        ensures
            r == if is_calendar_date(year as int, month as int, day as int) {
                Some(Date { year, month, day })
            } else {
                None
            },
    {
        if calendar_date_exists(year, month, day) {
            Some(Date { year, month, day })
        } else {
            None
        }
    }

    /// Whether this value names a day that exists.
    pub fn is_valid(&self) -> (r: bool)
        ensures
            r == self.valid(),
    {
        calendar_date_exists(self.year, self.month, self.day)
    }

    /// Reads a date written as year, month and day with hyphens between them.
    pub fn parse(s: &str) -> (r: Option<Date>)
        ensures
            r == iso_date(s@),
            r matches Some(d) ==> d.valid(),
    {
        read_iso_date(s)
    }

    /// The date written as year, month and day with hyphens between them.
    pub fn to_string(&self) -> (r: String)
        requires
            self.valid(),
        ensures
            r@ == iso_text(*self),
    {
        write_iso_date(self)
    }

    /// The date in the short form of the calendars: the month by the first
    /// letters of its name, and the day.
    pub fn to_short_string(&self) -> (r: String)
        requires
            self.valid(),
        ensures
            r@ == short_text(*self),
    {
        write_short_date(self)
    }

    /// How many days `other` lies after `self`; below nothing if it lies before.
    pub fn days_until(&self, other: &Date) -> (r: i64)
        requires
            self.valid(),
            other.valid(),
        ensures
            r == julian_day(*other) - julian_day(*self),
    {
        julian_day_of(other) as i64 - julian_day_of(self) as i64
    }

    pub fn year(&self) -> (r: i32)
        ensures
            r == self.year,
    {
        self.year
    }

    pub fn month(&self) -> (r: u8)
        ensures
            r == self.month,
    {
        self.month
    }

    pub fn day(&self) -> (r: u8)
        ensures
            r == self.day,
    {
        self.day
    }

    pub fn is_earlier(&self, other: &Date) -> (r: bool)
        ensures
            r == self.earlier(*other),
    {
        self.year < other.year || (self.year == other.year && (self.month < other.month || (
        self.month == other.month && self.day < other.day)))
    }
}

impl Ranked for Date {
    open spec fn before(&self, other: &Self) -> bool {
        self.earlier(*other)
    }

    fn is_before(&self, other: &Self) -> (r: bool) {
        self.is_earlier(other)
    }

    proof fn lemma_before_transitive(a: &Self, b: &Self, c: &Self) {
    }

    proof fn lemma_before_irreflexive(a: &Self) {
    }
}

/// Of two different dates one is earlier than the other, and never both.
pub proof fn lemma_dates_totally_ordered(a: Date, b: Date)
    ensures
        a == b || a.earlier(b) || b.earlier(a),
        !(a.earlier(b) && b.earlier(a)),
        !a.earlier(a),
{
}

} // verus!
