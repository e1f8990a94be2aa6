use vstd::prelude::*;

verus! {

/// Whether chrono can represent the instant `secs` seconds after the Unix
/// epoch as a `DateTime<Utc>`.
pub uninterp spec fn utc_seconds_in_range(secs: int) -> bool;

/// Relies on `chrono::DateTime::from_timestamp(secs, 0)`, which returns `None`
/// exactly when the number of seconds is out of chrono's range.
#[verifier::external_body]
pub(crate) fn seconds_in_range(secs: i64) -> (r: bool)
    ensures
        r == utc_seconds_in_range(secs as int),
{
    chrono::DateTime::from_timestamp(secs, 0).is_some()
}

/// Relies on `chrono::DateTime::from_timestamp` and on formatting the instant
/// in the machine's local time zone as `%Y-%m-%d %I:%M%P`. The text depends on
/// the time zone, so nothing is stated of it.
#[verifier::external_body]
pub(crate) fn local_time_text(secs: i64) -> (r: Vec<u8>)
    requires
        utc_seconds_in_range(secs as int),
{
    match chrono::DateTime::from_timestamp(secs, 0) {
        Some(t) => {
            let local: chrono::DateTime<chrono::Local> = chrono::DateTime::from(t);
            local.format("%Y-%m-%d %I:%M%P").to_string().into_bytes()
        },
        None => Vec::new(),
    }
}

} // verus!
