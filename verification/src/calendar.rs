//! Calendar days. A day is held as its number in the proleptic Gregorian
//! calendar, 1 January of the year 1 being day 1; the `chrono` crate reads
//! dates and the clock, and what is computed with days is computed here.

use vstd::prelude::*;

verus! {

/// The layout in which the date of expiry is read: the year, the short
/// English name of the month and the day of the month, with nothing between
/// them, as in `2031Jan5`.
pub open spec fn date_format() -> Seq<char> {
    seq!['%', 'Y', '%', 'b', '%', 'd']
}

/// The number of the day that a text names when it is read in a layout, or
/// `None` where the text does not name a day in that layout.
pub uninterp spec fn parsed_day(text: Seq<char>, format: Seq<char>) -> Option<i32>;

/// `NaiveDate::parse_from_str` of `chrono`, and `Datelike::num_days_from_ce`
/// of the date that it returns. The result depends on the text and the layout
/// alone; `None` stands for every error of the parser. Only the layout of
/// `date_format` is admitted.
#[verifier::external_body]
pub(crate) fn parse_day(text: &str, format: &str) -> (day: Option<i32>)
    requires
        format@ == date_format(),
    ensures
        day == parsed_day(text@, format@),
{
    match chrono::NaiveDate::parse_from_str(text, format) {
        Ok(date) => Some(chrono::Datelike::num_days_from_ce(&date)),
        Err(_) => None,
    }
}

/// `Local::now` of `chrono`: the number of the day that the clock of this
/// machine shows in its own time zone. Nothing is known of it beforehand,
/// and two calls may differ.
#[verifier::external_body]
pub(crate) fn today() -> (day: i32) {
    chrono::Datelike::num_days_from_ce(&chrono::Local::now().date_naive())
}

/// The days from `today` to the day of expiry: whole calendar days, whatever
/// the time of day. The result is zero on the day of expiry itself and
/// negative once that day has passed.
pub fn days_until(expiry: i32, today: i32) -> (days: i64)
    ensures
        days == expiry - today,
        days < 0 <==> expiry < today,
        days == 0 <==> expiry == today,
{
    expiry as i64 - today as i64
}

} // verus!
