//! The time of day, as text.

use vstd::prelude::*;

verus! {

/// The present instant in UTC, written as RFC 3339 says.
///
/// Trusted: reads the system clock (`SystemTime::now`), and has the `time`
/// crate turn the nanoseconds since 1970 into a date
/// (`OffsetDateTime::from_unix_timestamp_nanos`) and write it
/// (`OffsetDateTime::format`). Nothing is claimed of the text: it depends on
/// the clock. Where the clock stands before 1970 the instant is 1970; where
/// the crate cannot hold or write the instant, the text is empty.
#[verifier::external_body]
pub(crate) fn timestamp_now() -> (stamp: String) {
    let since = std::time::SystemTime::now()
        .duration_since(std::time::UNIX_EPOCH)
        .unwrap_or_default();
    match time::OffsetDateTime::from_unix_timestamp_nanos(since.as_nanos() as i128) {
        Ok(instant) => instant
            .format(&time::format_description::well_known::Rfc3339)
            .unwrap_or_default(),
        Err(_) => String::new(),
    }
}

} // verus!
