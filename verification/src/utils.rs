//! Shared helpers: timestamp formatting and date parsing, through chrono.

use vstd::prelude::*;

verus! {

/// The text chrono renders for an epoch-millisecond timestamp in UTC with
/// the "%Y-%m-%d %H:%M:%S" layout, or the fallback text for a timestamp
/// outside chrono's range: a function of the timestamp alone.
pub uninterp spec fn formatted_timestamp(timestamp_ms: int) -> Seq<char>;

/// Formats an epoch-millisecond timestamp as human-readable UTC text.
///
/// Relies on chrono `DateTime::<Utc>::from_timestamp_millis` and
/// `DateTime::format`: the rendering depends on the timestamp alone.
#[verifier::external_body]
pub fn format_timestamp_ms(timestamp_ms: i64) -> (r: String)
    ensures
        r@ == formatted_timestamp(timestamp_ms as int),
{
    if let Some(dt) = chrono::DateTime::<chrono::Utc>::from_timestamp_millis(timestamp_ms) {
        dt.format("%Y-%m-%d %H:%M:%S").to_string()
    } else {
        "Invalid timestamp".to_string()
    }
}

/// A date that could not be parsed as "YYYY-MM-DD".
#[derive(Clone, Copy, PartialEq, Eq, Structural, Debug)]
pub enum DateError {
    Unparsable,
}

/// The epoch-millisecond timestamp of midnight UTC of a "YYYY-MM-DD"
/// date, as chrono parses it: a function of the text alone.
pub uninterp spec fn parsed_date_ms(date: Seq<char>) -> int;

/// Parses a "YYYY-MM-DD" date into the epoch-millisecond timestamp of its
/// midnight, UTC.
///
/// Relies on chrono `NaiveDateTime::parse_from_str` and
/// `DateTime::timestamp_millis`: the result depends on the text alone.
#[verifier::external_body]
pub(crate) fn parse_start_date(date_str: &str) -> (r: Result<i64, DateError>)
    ensures
        r matches Ok(t) ==> t == parsed_date_ms(date_str@),
{
    let with_time = date_str.to_owned() + " 00:00:00";
    match chrono::NaiveDateTime::parse_from_str(&with_time, "%Y-%m-%d %H:%M:%S") {
        Ok(naive) => {
            let dt = chrono::DateTime::<chrono::Utc>::from_naive_utc_and_offset(
                naive, chrono::Utc);
            Ok(dt.timestamp_millis())
        }
        Err(_) => Err(DateError::Unparsable),
    }
}

} // verus!
