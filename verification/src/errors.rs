use vstd::prelude::*;

verus! {

/// Why a fetched series could not be reduced to a summary row.
#[derive(Clone, Copy, Debug, PartialEq, Eq, Structural)]
pub enum ParseError {
    /// The series holds no parsable row, so no start or end timestamp can be
    /// established.
    EmptySeries,
    /// A row's timestamp is not an RFC 3339 date-time (after the UTC zone
    /// marker is appended), or its percentage field is not a decimal number
    /// the summarizer accepts, or the row lacks a second field.
    MalformedRow,
    /// The last row's timestamp precedes the first row's, so the series
    /// cannot yield a non-negative duration. A series is expected to arrive
    /// chronologically ordered; one that does not is rejected rather than
    /// summarized.
    ReversedSeries,
}

/// Why one unit of work produced no raw series.
#[derive(Clone, Copy, Debug, PartialEq, Eq, Structural)]
pub enum FetchError {
    /// The artifact was never produced for this `(commit, builder)` pair;
    /// expected, and silently skipped.
    NotFound,
    /// Any other non-success HTTP status.
    Http(u16),
    /// A transport-level failure: connection, timeout, or body decode.
    Transport,
}

} // verus!
