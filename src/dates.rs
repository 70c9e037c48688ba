//! Calendar dates as the configuration stores them (`YYYY-MM-DD`).
use vstd::prelude::*;

verus! {

/// A calendar date: year, month from 1, day of the month from 1.
#[derive(Clone, Copy, Debug, PartialEq, Eq, Structural)]
pub struct CalendarDate {
    pub year: i32,
    pub month: u32,
    pub day: u32,
}

/// The date that a text spells in the `%Y-%m-%d` format, as year, month and
/// day, if it spells a valid one.
pub uninterp spec fn parsed_ymd(s: Seq<char>) -> Option<(i32, u32, u32)>;

/// Relies on chrono::NaiveDate::parse_from_str with the format `%Y-%m-%d`:
/// the date the text spells, if it spells a valid one; chrono's month
/// counts from 1 to 12 and its day of the month from 1 to 31.
#[verifier::external_body]
fn parse_ymd(s: &str) -> (r: Option<(i32, u32, u32)>)
    ensures
        r == parsed_ymd(s@),
        r matches Some(d) ==> 1 <= d.1 <= 12 && 1 <= d.2 <= 31,
{
    match chrono::NaiveDate::parse_from_str(s, "%Y-%m-%d") {
        Ok(d) => Some((chrono::Datelike::year(&d), chrono::Datelike::month(&d), chrono::Datelike::day(&d))),
        Err(_) => None,
    }
}

/// Whether a parsed date, if there is one, is `today`.
pub fn date_matches(parsed: Option<(i32, u32, u32)>, today: CalendarDate) -> (r: bool)
    ensures
        r == (parsed == Some((today.year, today.month, today.day))),
{
    match parsed {
        Some(d) => d.0 == today.year && d.1 == today.month && d.2 == today.day,
        None => false,
    }
}

/// Whether the text spells `today`; text that is no valid date never does.
pub fn is_date_current(date_str: &str, today: CalendarDate) -> (r: bool)
    ensures
        r == (parsed_ymd(date_str@) == Some((today.year, today.month, today.day))),
{
    date_matches(parse_ymd(date_str), today)
}

} // verus!
