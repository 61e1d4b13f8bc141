//! Calendar dates, and the date on which a timestamp falls.

use vstd::prelude::*;
use chrono::Datelike;

verus! {

/// A day of the calendar, given by year, month and day of the month.
#[derive(Clone, Copy, Debug, PartialEq, Eq)]
pub struct CalendarDate {
    pub year: i32,
    pub month: u32,
    pub day: u32,
}

impl CalendarDate {
    /// `self` is a later day than `other`: the year is later, or in the same
    /// year the month is, or in the same month the day is.
    pub open spec fn later_than(self, other: CalendarDate) -> bool {
        self.year > other.year || (self.year == other.year && (self.month > other.month || (
        self.month == other.month && self.day > other.day)))
    }

    /// Whether `self` is a later day than `other`.
    pub fn is_after(&self, other: &CalendarDate) -> (r: bool)
        ensures
            r == self.later_than(*other),
    {
        self.year > other.year || (self.year == other.year && (self.month > other.month || (
        self.month == other.month && self.day > other.day)))
    }
}

/// The order of days is transitive, and of two days at most one is later
/// than the other.
pub proof fn lemma_later_than_is_an_order(a: CalendarDate, b: CalendarDate, c: CalendarDate)
    ensures
        !(a.later_than(b) && b.later_than(a)),
        a.later_than(b) && b.later_than(c) ==> a.later_than(c),
        !a.later_than(b) && !b.later_than(c) ==> !a.later_than(c),
{
}

/// The error with which the date and time parser of `chrono` rejects a text.
#[verifier::external_type_specification]
#[verifier::external_body]
pub struct ExParseError(chrono::ParseError);

/// The calendar day, as year, month and day of the month, on which `chrono`
/// finds the instant of an RFC 3339 timestamp to fall in the offset from UTC
/// that the timestamp is written in; `None` for a text that `chrono` does
/// not read as such a timestamp.
pub uninterp spec fn rfc3339_date(text: Seq<char>) -> Option<(i32, u32, u32)>;

/// Reads `text` with `chrono::DateTime::parse_from_rfc3339` and takes the
/// day on which the instant falls in the offset that the text is written in
/// (`DateTime::date_naive`, then `Datelike::year`, `month` and `day`).
///
/// Not proved: that the result is [`rfc3339_date`] of the text, which is to
/// say that it depends on the text alone. The parser reads nothing but its
/// argument, and a date it accepts has a year of four digits, so the shift
/// by the offset stays within the range of dates that `chrono` represents
/// and `date_naive` returns.
#[verifier::external_body]
pub(crate) fn timestamp_date(text: &str) -> (r: Result<CalendarDate, chrono::ParseError>)
    ensures
        match r {
            Ok(date) => rfc3339_date(text@) == Some((date.year, date.month, date.day)),
            Err(_) => rfc3339_date(text@) is None,
        },
{
    match chrono::DateTime::parse_from_rfc3339(text) {
        Ok(instant) => {
            let day = instant.date_naive();
            Ok(CalendarDate { year: day.year(), month: day.month(), day: day.day() })
        },
        Err(error) => Err(error),
    }
}

} // verus!
