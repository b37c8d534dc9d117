//! Calendar dates and the clock, read through chrono.
use chrono::Datelike;
use vstd::prelude::*;

verus! {

/// The earliest calendar year chrono's dates reach.
pub const MIN_YEAR: i32 = -262143;

/// The latest calendar year chrono's dates reach.
pub const MAX_YEAR: i32 = 262142;

/// The year of a date written "YYYY-MM-DD", as chrono reads it; `None` when the
/// text is not such a date.
pub uninterp spec fn date_year_of(s: Seq<char>) -> Option<i32>;

/// Relies on `chrono::NaiveDate::parse_from_str` with the format "%Y-%m-%d", and on
/// the date's `year`.
#[verifier::external_body]
pub(crate) fn payment_year(s: &str) -> (r: Option<i32>)
    ensures
        r == date_year_of(s@),
{
    chrono::NaiveDate::parse_from_str(s, "%Y-%m-%d").ok().map(|d| d.year())
}

/// Relies on `chrono::Utc::now` and its `format("%Y-%m-%dT%H:%M:%S")`: the present
/// moment, in UTC, to the second. The year takes at least four digits and every
/// other field two, so the text has at least 19 characters.
#[verifier::external_body]
pub(crate) fn now_timestamp() -> (r: String)
    ensures
        r@.len() >= 19,
{
    chrono::Utc::now().format("%Y-%m-%dT%H:%M:%S").to_string()
}

/// Relies on `chrono::Utc::now` and the date's `year`: the present year in UTC,
/// within the years chrono's dates reach.
#[verifier::external_body]
pub(crate) fn current_year() -> (r: i32)
    ensures
        MIN_YEAR <= r <= MAX_YEAR,
{
    chrono::Utc::now().year()
}

} // verus!
