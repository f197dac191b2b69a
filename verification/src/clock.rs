//! Dates and times through the `chrono` crate, behind trusted wrappers.
//!
//! Every result here is a function of the arguments alone (all in UTC), so each wrapper's
//! result has a name that the library's contracts speak of.

use vstd::prelude::*;
use chrono::{Datelike, TimeZone};

verus! {

/// What `chrono::NaiveDateTime::parse_from_str(s, "%Y/%m/%d %H:%M:%S")` gives, the
/// parsed value read as a UTC Unix timestamp (`and_utc().timestamp()`), or the text of
/// the parse error.
pub uninterp spec fn log_datetime_timestamp(s: Seq<char>) -> Result<i64, Seq<char>>;

/// What `chrono::NaiveDate::parse_from_str(s, "%Y-%m-%d")` gives: `None` where it fails,
/// else the UTC Unix timestamp of that day's midnight (`and_hms_opt(0, 0, 0)`, `None` where
/// that fails, then `and_utc().timestamp()`).
pub uninterp spec fn file_date_midnight(s: Seq<char>) -> Option<Option<i64>>;

/// What `chrono::Utc.timestamp_opt(ts, 0).single()` gives, as the year, month and day of
/// that instant in UTC (`None` where chrono has no such instant).
pub uninterp spec fn utc_ymd(ts: i64) -> Option<(i32, u32, u32)>;

/// What `chrono::Utc.with_ymd_and_hms(year, month, day, 0, 0, 0).single()` gives, as a
/// Unix timestamp (`None` where chrono has no such date).
pub uninterp spec fn utc_midnight_timestamp(year: i32, month: u32, day: u32) -> Option<i64>;

/// The `Result` of a wrapper, its `String`s taken by their view.
pub open spec fn result_view(r: Result<i64, String>) -> Result<i64, Seq<char>> {
    match r {
        Ok(v) => Ok(v),
        Err(e) => Err(e@),
    }
}

/// Parses a log timestamp such as `2023/02/27 02:28:40` with
/// `NaiveDateTime::parse_from_str` and reads it as a UTC Unix timestamp.
/// Claimed: the result is `log_datetime_timestamp(s)`.
#[verifier::external_body]
pub(crate) fn parse_log_datetime(s: &str) -> (r: Result<i64, String>)
    ensures
        result_view(r) == log_datetime_timestamp(s@),
{
    chrono::NaiveDateTime::parse_from_str(s, "%Y/%m/%d %H:%M:%S")
        .map(|dt| dt.and_utc().timestamp())
        .map_err(|e| e.to_string())
}

/// Parses a file-name date such as `2023-02-27` with `NaiveDate::parse_from_str` and gives
/// the UTC timestamp of its midnight. Claimed: the result is `file_date_midnight(s)`, and a
/// parsed date always has a midnight (chrono documents that `and_hms_opt` fails only on an
/// invalid hour, minute or second).
#[verifier::external_body]
pub(crate) fn parse_file_date(s: &str) -> (r: Option<Option<i64>>)
    ensures
        r == file_date_midnight(s@),
        r matches Some(inner) ==> inner is Some,
{
    chrono::NaiveDate::parse_from_str(s, "%Y-%m-%d")
        .ok()
        .map(|d| d.and_hms_opt(0, 0, 0).map(|dt| dt.and_utc().timestamp()))
}

/// The UTC calendar date of a Unix timestamp (`Utc.timestamp_opt(ts, 0).single()`).
/// Claimed: the result is `utc_ymd(ts)`; and where there is a date, its midnight UTC
/// (`Utc.with_ymd_and_hms(.., 0, 0, 0)`) is the start of that day, `ts - ts mod 86400`,
/// since chrono's UTC timestamps count every day as 86400 seconds (no leap seconds).
#[verifier::external_body]
pub(crate) fn utc_date_of(ts: i64) -> (r: Option<(i32, u32, u32)>)
    ensures
        r == utc_ymd(ts),
        r matches Some((y, m, d)) ==> utc_midnight_timestamp(y, m, d) == Some((ts - (ts as int) % 86400) as i64),
{
    chrono::Utc.timestamp_opt(ts, 0).single().map(|dt| (dt.year(), dt.month(), dt.day()))
}

/// The Unix timestamp of midnight UTC on a calendar date
/// (`Utc.with_ymd_and_hms(year, month, day, 0, 0, 0).single()`).
/// Claimed: the result is `utc_midnight_timestamp(year, month, day)`.
#[verifier::external_body]
pub(crate) fn utc_midnight(year: i32, month: u32, day: u32) -> (r: Option<i64>)
    ensures
        r == utc_midnight_timestamp(year, month, day),
{
    chrono::Utc.with_ymd_and_hms(year, month, day, 0, 0, 0).single().map(|dt| dt.timestamp())
}

} // verus!
