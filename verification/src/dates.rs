use chrono::Datelike;
use vstd::prelude::*;

verus! {

/// A calendar day, counted as in the proleptic Gregorian calendar: day 1
/// is January 1st of year 1.
#[derive(Debug, Clone, Copy, PartialEq, Eq, Structural)]
pub struct Date {
    pub days_from_ce: i32,
}

/// The last day that `chrono` can represent, `NaiveDate::MAX` (December
/// 31st of year 262142), counted from the common era.
pub open spec fn last_chrono_day() -> int {
    95_745_399
}

/// Today's date in UTC, read from the system clock through
/// `chrono::Utc::now` and `chrono::Datelike::num_days_from_ce`. The value
/// depends on the clock; all that is promised of it is that, like every
/// date of `chrono`, it is not after `NaiveDate::MAX`.
#[verifier::external_body]
pub(crate) fn today() -> (d: Date)
    ensures
        d.days_from_ce <= last_chrono_day(),
{
    Date { days_from_ce: chrono::Utc::now().naive_utc().date().num_days_from_ce() }
}

/// How `chrono` writes the day `days_from_ce` (ISO 8601, as
/// `2022-04-10`).
pub uninterp spec fn date_text_of(days_from_ce: i32) -> Seq<char>;

/// Writes a day as `chrono::NaiveDate` displays it; the contract claims
/// only that the text depends on the day alone, through `date_text_of`.
#[verifier::external_body]
pub(crate) fn date_text(d: Date) -> (r: String)
    ensures
        r@ == date_text_of(d.days_from_ce),
{
    match chrono::NaiveDate::from_num_days_from_ce_opt(d.days_from_ce) {
        Some(day) => day.to_string(),
        None => String::new(),
    }
}

} // verus!
