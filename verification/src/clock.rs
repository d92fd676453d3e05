//! The current year.

use vstd::prelude::*;

verus! {

/// The year of the local date, from `chrono::Local::now` and
/// `chrono::Datelike::year`. It depends on the clock and the time zone of the
/// machine, so nothing is stated of it.
#[verifier::external_body]
fn local_year() -> i32 {
    chrono::Datelike::year(&chrono::Local::now())
}

/// The year as the notices write it: a year before the year 0 counts as 0.
pub open spec fn notice_year(year: i32) -> u32 {
    if year < 0 {
        0
    } else {
        year as u32
    }
}

/// The year as the notices write it, from a year of the calendar.
pub fn year_from_calendar(year: i32) -> (r: u32)
    ensures
        r == notice_year(year),
{
    if year < 0 {
        0
    } else {
        year as u32
    }
}

/// The current year of the local calendar, as the notices write it. Which
/// year the clock of the machine tells is not known here; whatever it tells,
/// the result is that year, and 0 where it lies before the year 0.
pub fn current_year() -> (r: u32)
    ensures
        exists|year: i32| r == #[trigger] notice_year(year),
{
    let year = local_year();
    let r = year_from_calendar(year);
    assert(r == notice_year(year));
    r
}

} // verus!
