use vstd::prelude::*;

verus! {

/// The number of seconds since the Unix epoch named by an RFC 3339 date-time
/// that lacks a zone suffix and is read as UTC, or `None` where the bytes do
/// not parse as such a date-time. The result is a function of the bytes
/// alone.
pub uninterp spec fn rfc3339_utc_seconds(field: Seq<u8>) -> Option<i64>;

/// Relies on `time::PrimitiveDateTime::parse` with the well-known RFC 3339
/// format, on `PrimitiveDateTime::assume_utc`, and on
/// `OffsetDateTime::unix_timestamp`: the parse depends on the input
/// characters alone, and reading the result as UTC makes the epoch-seconds
/// value a pure function of them.
#[verifier::external_body]
pub fn parse_rfc3339_utc(field: &[u8]) -> (r: Option<i64>)
    ensures
        r == rfc3339_utc_seconds(field@),
{
    let text = match std::str::from_utf8(field) {
        Ok(t) => t,
        Err(_) => return None,
    };
    let stamped = format!("{}Z", text);
    match time::PrimitiveDateTime::parse(&stamped, &time::format_description::well_known::Rfc3339)
    {
        Ok(dt) => Some(dt.assume_utc().unix_timestamp()),
        Err(_) => None,
    }
}

} // verus!
