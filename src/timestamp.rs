use vstd::prelude::*;

verus! {

/// An instant with the UTC offset it was written in.
#[derive(Clone, Copy, Debug, PartialEq, Eq, Structural)]
pub struct Timestamp {
    /// Nanoseconds since 1970-01-01T00:00:00Z.
    pub unix_nanos: i128,
    /// The offset from UTC, in seconds.
    pub offset_seconds: i32,
}

/// The instant (nanoseconds since the Unix epoch) and UTC offset (seconds) that an
/// ISO 8601 date-time denotes, or `None` where the text is not one.
pub uninterp spec fn iso8601_instant(s: Seq<char>) -> Option<(int, int)>;

/// Relies on `time::OffsetDateTime::parse` with `Iso8601::DEFAULT`, which accepts
/// exactly the ISO 8601 date-times, and on `unix_timestamp_nanos` and
/// `UtcOffset::whole_seconds` to read the parsed value back.
#[verifier::external_body]
pub(crate) fn parse_iso8601(s: &str) -> (r: Option<Timestamp>)
    ensures
        r is None <==> iso8601_instant(s@) is None,
        r matches Some(t) ==> iso8601_instant(s@) == Some(
            (t.unix_nanos as int, t.offset_seconds as int),
        ),
{
    let iso = time::format_description::well_known::Iso8601::DEFAULT;
    time::OffsetDateTime::parse(s, &iso).ok().map(
        |t| Timestamp { unix_nanos: t.unix_timestamp_nanos(), offset_seconds: t.offset().whole_seconds() },
    )
}

} // verus!
