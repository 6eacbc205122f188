use vstd::prelude::*;

verus! {

/// The current time, in the forms that the stores write.
pub struct Timestamp {
    /// RFC 3339, as `DateTime::to_rfc3339` writes it.
    pub rfc3339: String,
    /// Milliseconds since the Unix epoch.
    pub millis: i64,
    /// `YYYY-MM-DD HH:MM:SS`, the form of SQLite's `CURRENT_TIMESTAMP`.
    pub sql: String,
    /// `YYYY-MM-DD`.
    pub date: String,
}

/// Whether the forms of a timestamp agree on the date: the RFC 3339 text is the date,
/// `T` and the time, and the SQL text is the date, a space and the time.
pub open spec fn same_date(t: Timestamp) -> bool {
    let n = t.date@.len();
    &&& t.rfc3339@.len() > n && t.rfc3339@.take(n as int) == t.date@ && t.rfc3339@[n as int] == 'T'
    &&& t.sql@.len() > n && t.sql@.take(n as int) == t.date@ && t.sql@[n as int] == ' '
}

/// `chrono::Utc::now`, written out in the forms of `Timestamp`. What time it is is not
/// stated; that the three texts begin with the same date is, as chrono writes the year,
/// month and day alike in `to_rfc3339` and in `%Y-%m-%d`.
#[verifier::external_body]
pub(crate) fn utc_now() -> (r: Timestamp)
    ensures
        same_date(r),
{
    let now = chrono::Utc::now();
    Timestamp {
        rfc3339: now.to_rfc3339(),
        millis: now.timestamp_millis(),
        sql: now.format("%Y-%m-%d %H:%M:%S").to_string(),
        date: now.format("%Y-%m-%d").to_string(),
    }
}

} // verus!
