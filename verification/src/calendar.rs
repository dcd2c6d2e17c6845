//! Days of the calendar, as chrono reads and writes them.
//!
//! A day is held as its day number (chrono's `num_days_from_ce`: 0001-01-01
//! is day 1), so that "the day before" is one less and two days compare as
//! numbers. Reading and writing the texts is left to chrono; each of its
//! results is named below and is a function of the arguments alone.

use vstd::prelude::*;

verus! {

/// The day number of a text that chrono's `NaiveDate::parse_from_str` reads
/// with `%Y-%m-%d`; `None` where it refuses the text.
pub uninterp spec fn day_number(text: Seq<char>) -> Option<int>;

/// chrono's `%Y-%m-%d` text of a day number; `None` outside chrono's range.
pub uninterp spec fn day_text(n: int) -> Option<Seq<char>>;

/// chrono's `%Y-%m` text of a day number; `None` outside chrono's range.
pub uninterp spec fn month_text(n: int) -> Option<Seq<char>>;

/// chrono's `%m-%d` text of a day number; `None` outside chrono's range.
pub uninterp spec fn short_text(n: int) -> Option<Seq<char>>;

/// The day of the month and the weekday (Monday is 0) of a day number;
/// `None` outside chrono's range.
pub uninterp spec fn day_parts(n: int) -> Option<(int, int)>;

/// chrono's `%Y-%m-%d` text of a year, month and day, where
/// `NaiveDate::from_ymd_opt` accepts them.
pub uninterp spec fn ymd_text(y: int, m: int, d: int) -> Option<Seq<char>>;

pub open spec fn opt_num(r: Option<i32>) -> Option<int> {
    match r {
        Some(n) => Some(n as int),
        None => None,
    }
}

pub open spec fn opt_text(r: Option<String>) -> Option<Seq<char>> {
    match r {
        Some(s) => Some(s@),
        None => None,
    }
}

/// Reads a `YYYY-MM-DD` day with chrono's `NaiveDate::parse_from_str` and
/// gives its `num_days_from_ce`; the contract claims only that the result is
/// the named function of the text.
#[verifier::external_body]
pub fn parse_day(text: &str) -> (r: Option<i32>)
    ensures
        opt_num(r) == day_number(text@),
{
    match chrono::NaiveDate::parse_from_str(text, "%Y-%m-%d") {
        Ok(d) => Some(chrono::Datelike::num_days_from_ce(&d)),
        Err(_) => None,
    }
}

/// chrono's `NaiveDate::from_num_days_from_ce_opt`, written with
/// `format("%Y-%m-%d")`; claims only that the result is the named function
/// of the day number.
#[verifier::external_body]
pub fn format_day(n: i32) -> (r: Option<String>)
    ensures
        opt_text(r) == day_text(n as int),
{
    match chrono::NaiveDate::from_num_days_from_ce_opt(n) {
        Some(d) => Some(d.format("%Y-%m-%d").to_string()),
        None => None,
    }
}

/// chrono's `NaiveDate::from_num_days_from_ce_opt`, written with
/// `format("%Y-%m")`; claims only that the result is the named function of
/// the day number.
#[verifier::external_body]
pub fn format_month(n: i32) -> (r: Option<String>)
    ensures
        opt_text(r) == month_text(n as int),
{
    match chrono::NaiveDate::from_num_days_from_ce_opt(n) {
        Some(d) => Some(d.format("%Y-%m").to_string()),
        None => None,
    }
}

/// chrono's `NaiveDate::from_num_days_from_ce_opt`, written with
/// `format("%m-%d")`; claims only that the result is the named function of
/// the day number.
#[verifier::external_body]
pub fn format_short(n: i32) -> (r: Option<String>)
    ensures
        opt_text(r) == short_text(n as int),
{
    match chrono::NaiveDate::from_num_days_from_ce_opt(n) {
        Some(d) => Some(d.format("%m-%d").to_string()),
        None => None,
    }
}

/// chrono's `Datelike::day` and `weekday().num_days_from_monday()` of a day
/// number; claims that the result is the named function of the day number,
/// with the ranges chrono documents (a day from 1 to 31, a weekday from 0
/// to 6), and that the weekday goes round every seven days from day 1
/// (0001-01-01, a Monday).
#[verifier::external_body]
pub fn day_of(n: i32) -> (r: Option<(u32, u32)>)
    ensures
        match r {
            Some((d, w)) => day_parts(n as int) == Some((d as int, w as int)) && 1 <= d <= 31 && w
                <= 6 && w as int == (n as int - 1) % 7,
            None => day_parts(n as int) is None,
        },
{
    match chrono::NaiveDate::from_num_days_from_ce_opt(n) {
        Some(d) => Some((chrono::Datelike::day(&d), chrono::Datelike::weekday(&d).num_days_from_monday())),
        None => None,
    }
}

/// chrono's `NaiveDate::from_ymd_opt`, written with `format("%Y-%m-%d")`;
/// claims only that the result is the named function of the three numbers.
#[verifier::external_body]
pub fn format_ymd(y: i32, m: u32, d: u32) -> (r: Option<String>)
    ensures
        opt_text(r) == ymd_text(y as int, m as int, d as int),
{
    match chrono::NaiveDate::from_ymd_opt(y, m, d) {
        Some(x) => Some(x.format("%Y-%m-%d").to_string()),
        None => None,
    }
}

} // verus!
