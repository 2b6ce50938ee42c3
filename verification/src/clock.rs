//! Decoding of date and time text into seconds since the Unix epoch.

use vstd::prelude::*;

verus! {

/// The seconds since 1970-01-01 00:00:00 that `chrono` reads out of `text`
/// under the strftime-style `pattern`, or `None` where `chrono` rejects the
/// text under that pattern.
pub uninterp spec fn naive_timestamp(text: Seq<char>, pattern: Seq<char>) -> Option<i64>;

/// Decodes `text` under `pattern` with `chrono`.
///
/// The body calls `chrono::NaiveDateTime::parse_from_str` and turns the date
/// and time that it yields into whole seconds since the Unix epoch with
/// `NaiveDateTime::and_utc` and `DateTime::timestamp`, which count the date
/// and time as UTC and look at neither the machine's clock nor its time zone.
///
/// Nothing is proved of this function. Its contract says no more than that
/// the outcome depends on the text and the pattern alone, and gives that
/// outcome a name.
#[verifier::external_body]
pub(crate) fn decode_timestamp(text: &str, pattern: &str) -> (seconds: Option<i64>)
    ensures
        seconds == naive_timestamp(text@, pattern@),
{
    match chrono::NaiveDateTime::parse_from_str(text, pattern) {
        Ok(moment) => Some(moment.and_utc().timestamp()),
        Err(_) => None,
    }
}

} // verus!
