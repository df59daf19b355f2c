//! Local time, read through chrono. The results depend on the clock or on the
//! machine's time zone, so little is stated of them.
use vstd::prelude::*;
use chrono::TimeZone;

verus! {

/// The current local time as RFC 3339 text: `chrono::Local::now().to_rfc3339()`.
#[verifier::external_body]
pub(crate) fn now_rfc3339() -> (r: String)
{
    chrono::Local::now().to_rfc3339()
}

/// The UNIX time of local midnight on a `%Y-%m-%d` date:
/// `chrono::NaiveDate::parse_from_str`, then `Local::from_local_datetime(..).single()`.
/// `None` when the text is no such date or the local time is ambiguous.
#[verifier::external_body]
pub(crate) fn local_date_instant(text: &str) -> (r: Option<i64>)
{
    let d = chrono::NaiveDate::parse_from_str(text, "%Y-%m-%d").ok()?;
    chrono::Local.from_local_datetime(&d.and_hms_opt(0, 0, 0)?).single().map(|t| t.timestamp())
}

/// The UNIX time of a local `%Y-%m-%dT%H:%M:%S` date and time:
/// `chrono::NaiveDateTime::parse_from_str`, then `Local::from_local_datetime(..).single()`.
#[verifier::external_body]
pub(crate) fn local_datetime_instant(text: &str) -> (r: Option<i64>)
{
    let d = chrono::NaiveDateTime::parse_from_str(text, "%Y-%m-%dT%H:%M:%S").ok()?;
    chrono::Local.from_local_datetime(&d).single().map(|t| t.timestamp())
}

/// Whether a UNIX time in seconds is one chrono can place in local time:
/// `chrono::Local.timestamp_opt(secs, 0).single()`, then `DateTime::timestamp`,
/// which gives back the same seconds. Which seconds chrono can place is not stated.
#[verifier::external_body]
pub(crate) fn local_timestamp(secs: i64) -> (r: Option<i64>)
    ensures
        r is Some ==> r == Some(secs),
{
    chrono::Local.timestamp_opt(secs, 0).single().map(|t| t.timestamp())
}

} // verus!
