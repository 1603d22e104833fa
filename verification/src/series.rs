use vstd::prelude::*;
use crate::bytes::{records, records_of, split_fields, split_on};
use crate::errors::ParseError;
use crate::numbers::{
    avg_e4_bytes, avg_of_sum, dec_bytes, parse_percent_e6, parse_scaled_e6, push_avg_e4, push_dec,
    round_div_away, AVG_ABS_MAX_E4, LOAD_ABS_MAX_E6,
};
use crate::timestamp::{parse_rfc3339_utc, rfc3339_utc_seconds};

verus! {

/// What one raw series reduces to: how long it ran, and the mean load
/// (one hundred minus the busy percentage), held in ten-thousandths of a
/// percentage point so that it renders with exactly four decimal digits.
#[derive(Clone, Copy, Debug, PartialEq, Eq, Structural)]
pub struct SeriesSummary {
    pub duration_seconds: u64,
    pub avg_cpu_usage_e4: i64,
}

/// One parsed sample: its timestamp in epoch seconds, and the row's load —
/// one hundred percent minus the busy percentage — in millionths of a
/// percentage point.
#[derive(Clone, Copy, Debug, PartialEq, Eq, Structural)]
pub struct SampleRow {
    pub ts: i64,
    pub load_e6: i64,
}

pub open spec fn sum_sample_loads(rows: Seq<SampleRow>) -> int
    decreases rows.len(),
{
    if rows.len() == 0 {
        0
    } else {
        sum_sample_loads(rows.drop_last()) + rows.last().load_e6
    }
}

/// What a parsed series reduces to: an empty series and one running
/// backwards in time are refused; otherwise the duration is the last
/// timestamp minus the first, and the average is the mean of the loads,
/// rounded to four decimal digits with halves away from zero.
pub open spec fn summarize_rows_spec(rows: Seq<SampleRow>) -> Result<SeriesSummary, ParseError> {
    if rows.len() == 0 {
        Err(ParseError::EmptySeries)
    } else if rows.last().ts < rows[0].ts {
        Err(ParseError::ReversedSeries)
    } else {
        Ok(
            SeriesSummary {
                duration_seconds: (rows.last().ts - rows[0].ts) as u64,
                avg_cpu_usage_e4: round_div_away(
                    sum_sample_loads(rows),
                    100 * rows.len() as int,
                ) as i64,
            },
        )
    }
}

/// Reduces a parsed series to its summary, exactly as `summarize_rows_spec`
/// says. The load bound is what keeps the running sum within machine range.
pub fn summarize_rows(rows: &Vec<SampleRow>) -> (r: Result<SeriesSummary, ParseError>)
    requires
        forall|i: int|
            0 <= i < rows@.len() ==> -LOAD_ABS_MAX_E6 <= (#[trigger] rows@[i]).load_e6
                <= LOAD_ABS_MAX_E6,
    ensures
        r == summarize_rows_spec(rows@),
        r is Ok ==> -AVG_ABS_MAX_E4 <= r->Ok_0.avg_cpu_usage_e4 <= AVG_ABS_MAX_E4,
{
    let n = rows.len();
    if n == 0 {
        return Err(ParseError::EmptySeries);
    }
    let first = rows[0].ts;
    let last = rows[n - 1].ts;
    proof {
        assert(rows@.last() == rows@[n - 1]);
    }
    if last < first {
        return Err(ParseError::ReversedSeries);
    }
    let mut sum: i128 = 0;
    let mut i: usize = 0;
    proof {
        assert(rows@.take(0) =~= Seq::<SampleRow>::empty());
    }
    while i < n
        invariant
            n == rows@.len(),
            i <= n,
            forall|j: int|
                0 <= j < rows@.len() ==> -LOAD_ABS_MAX_E6 <= (#[trigger] rows@[j]).load_e6
                    <= LOAD_ABS_MAX_E6,
            sum == sum_sample_loads(rows@.take(i as int)),
            -(i as int) * (LOAD_ABS_MAX_E6 as int) <= sum <= (i as int) * (LOAD_ABS_MAX_E6 as int),
        decreases n - i,
    {
        let l = rows[i].load_e6;
        sum = sum + l as i128;
        proof {
            assert(rows@.take(i + 1).drop_last() =~= rows@.take(i as int));
            assert(rows@.take(i + 1).last() == rows@[i as int]);
        }
        i += 1;
    }
    proof {
        assert(rows@.take(n as int) =~= rows@);
    }
    let avg = avg_of_sum(sum, n);
    let d128: i128 = last as i128 - first as i128;
    let dur: u64 = d128 as u64;
    Ok(SeriesSummary { duration_seconds: dur, avg_cpu_usage_e4: avg })
}

pub open spec fn row_fields(l: Seq<u8>) -> Seq<Seq<u8>> {
    split_on(l, 44)
}

/// A record parses when it has at least two fields, its first field is an
/// RFC 3339 date-time, and its second field is a decimal percentage.
pub open spec fn row_ok(l: Seq<u8>) -> bool {
    &&& row_fields(l).len() >= 2
    &&& rfc3339_utc_seconds(row_fields(l)[0]) is Some
    &&& parse_scaled_e6(row_fields(l)[1]) is Some
}

pub open spec fn row_ts(l: Seq<u8>) -> i64 {
    rfc3339_utc_seconds(row_fields(l)[0])->Some_0
}

/// One row's load in millionths of a percentage point: one hundred percent
/// minus the busy percentage.
pub open spec fn row_load_e6(l: Seq<u8>) -> int {
    100_000_000 - parse_scaled_e6(row_fields(l)[1])->Some_0
}

pub open spec fn parsed_rows(rs: Seq<Seq<u8>>) -> Seq<SampleRow> {
    rs.map_values(|l: Seq<u8>| SampleRow { ts: row_ts(l), load_e6: row_load_e6(l) as i64 })
}

/// What summarizing a raw series payload yields: the rows are the non-blank
/// lines; every row must parse; what the parsed rows reduce to is
/// `summarize_rows_spec`'s to say.
pub open spec fn summarize_spec(s: Seq<u8>) -> Result<SeriesSummary, ParseError> {
    let rs = records(s);
    if exists|i: int| 0 <= i < rs.len() && !row_ok(rs[i]) {
        Err(ParseError::MalformedRow)
    } else {
        summarize_rows_spec(parsed_rows(rs))
    }
}

/// Reduces one raw CPU-utilization series to its summary, exactly as
/// `summarize_spec` says. Pure: no I/O, no state.
pub fn summarize(s: &[u8]) -> (r: Result<SeriesSummary, ParseError>)
    ensures
        r == summarize_spec(s@),
        r is Ok ==> -AVG_ABS_MAX_E4 <= r->Ok_0.avg_cpu_usage_e4 <= AVG_ABS_MAX_E4,
{
    let recs = records_of(s);
    let n = recs.len();
    let mut rows: Vec<SampleRow> = Vec::new();
    let mut i: usize = 0;
    proof {
        assert(rows@ =~= parsed_rows(records(s@).take(0)));
    }
    while i < n
        invariant
            recs.deep_view() == records(s@),
            n == recs@.len(),
            i <= n,
            forall|j: int| 0 <= j < i ==> row_ok(#[trigger] records(s@)[j]),
            rows@ == parsed_rows(records(s@).take(i as int)),
            forall|j: int|
                0 <= j < rows@.len() ==> -LOAD_ABS_MAX_E6 <= (#[trigger] rows@[j]).load_e6
                    <= LOAD_ABS_MAX_E6,
        decreases n - i,
    {
        let ghost rec = records(s@)[i as int];
        let line: &Vec<u8> = &recs[i];
        proof {
            assert(line.deep_view() =~= line@);
            assert(line@ == rec);
        }
        let fields = split_fields(line.as_slice());
        proof {
            assert(fields.deep_view() == row_fields(rec));
        }
        if fields.len() < 2 {
            proof {
                assert(!row_ok(rec));
            }
            return Err(ParseError::MalformedRow);
        }
        let f0: &Vec<u8> = &fields[0];
        let f1: &Vec<u8> = &fields[1];
        proof {
            assert(f0.deep_view() =~= f0@);
            assert(f1.deep_view() =~= f1@);
            assert(f0@ == row_fields(rec)[0]);
            assert(f1@ == row_fields(rec)[1]);
        }
        let t = match parse_rfc3339_utc(f0.as_slice()) {
            Some(t) => t,
            None => {
                proof {
                    assert(!row_ok(rec));
                }
                return Err(ParseError::MalformedRow);
            },
        };
        let p = match parse_percent_e6(f1.as_slice()) {
            Some(p) => p,
            None => {
                proof {
                    assert(!row_ok(rec));
                }
                return Err(ParseError::MalformedRow);
            },
        };
        let load: i64 = 100_000_000 - p;
        proof {
            assert(row_ok(rec));
            assert(load == row_load_e6(rec));
        }
        rows.push(SampleRow { ts: t, load_e6: load });
        proof {
            assert(rows@ =~= parsed_rows(records(s@).take(i as int)).push(
                SampleRow { ts: row_ts(rec), load_e6: row_load_e6(rec) as i64 },
            ));
            assert(rows@ =~= parsed_rows(records(s@).take(i + 1)));
        }
        i += 1;
    }
    proof {
        assert(records(s@).take(n as int) =~= records(s@));
    }
    summarize_rows(&rows)
}

/// One persisted dataset row. The average is held in ten-thousandths of a
/// percentage point; `render_line` writes it with exactly four decimal
/// digits.
pub struct Summary {
    pub commit_sha: Vec<u8>,
    pub commit_time: Vec<u8>,
    pub builder: Vec<u8>,
    pub duration_seconds: u64,
    pub avg_cpu_usage_e4: i64,
}

/// The dataset row for a summary: the five columns comma-separated, ended by
/// a newline, with no header anywhere in the file.
pub open spec fn summary_line(
    sha: Seq<u8>,
    time: Seq<u8>,
    builder: Seq<u8>,
    dur: nat,
    avg: int,
) -> Seq<u8> {
    sha + seq![44u8] + time + seq![44u8] + builder + seq![44u8] + dec_bytes(dur) + seq![44u8]
        + avg_e4_bytes(avg) + seq![10u8]
}

/// Appends every byte of `b`.
pub fn push_bytes(out: &mut Vec<u8>, b: &Vec<u8>)
    ensures
        final(out)@ == old(out)@ + b@,
{
    let mut i: usize = 0;
    while i < b.len()
        invariant
            i <= b@.len(),
            out@ == old(out)@ + b@.take(i as int),
        decreases b@.len() - i,
    {
        out.push(b[i]);
        proof {
            assert(old(out)@ + b@.take(i + 1) =~= (old(out)@ + b@.take(i as int)).push(b@[i as int]));
        }
        i += 1;
    }
    proof {
        assert(b@.take(b@.len() as int) =~= b@);
    }
}

impl Summary {
    /// Renders this summary as one dataset row.
    pub fn render_line(&self) -> (r: Vec<u8>)
        requires
            self.avg_cpu_usage_e4 > i64::MIN,
        ensures
            r@ == summary_line(
                self.commit_sha@,
                self.commit_time@,
                self.builder@,
                self.duration_seconds as nat,
                self.avg_cpu_usage_e4 as int,
            ),
    {
        let mut out: Vec<u8> = Vec::new();
        push_bytes(&mut out, &self.commit_sha);
        out.push(44);
        push_bytes(&mut out, &self.commit_time);
        out.push(44);
        push_bytes(&mut out, &self.builder);
        out.push(44);
        push_dec(&mut out, self.duration_seconds);
        out.push(44);
        push_avg_e4(&mut out, self.avg_cpu_usage_e4);
        out.push(10);
        proof {
            assert(out@ =~= summary_line(
                self.commit_sha@,
                self.commit_time@,
                self.builder@,
                self.duration_seconds as nat,
                self.avg_cpu_usage_e4 as int,
            ));
        }
        out
    }
}

} // verus!
