use cpu_usage_pipeline::errors::ParseError;
use cpu_usage_pipeline::numbers::parse_percent_e6;
use cpu_usage_pipeline::series::{summarize, summarize_rows, SampleRow, Summary};

#[test]
fn three_row_series_duration_and_mean() {
    let body = b"2021-01-01T00:00:00,20\n2021-01-01T00:01:00,50\n2021-01-01T00:02:00,80\n";
    let s = summarize(body).unwrap();
    assert_eq!(s.duration_seconds, 120);
    assert_eq!(s.avg_cpu_usage_e4, 500000);
}

#[test]
fn single_row_series_zero_duration() {
    let body = b"2021-01-01T00:00:00,10\n";
    let s = summarize(body).unwrap();
    assert_eq!(s.duration_seconds, 0);
    assert_eq!(s.avg_cpu_usage_e4, 900000);
}

#[test]
fn empty_series_is_an_error() {
    assert_eq!(summarize(b"").unwrap_err(), ParseError::EmptySeries);
    assert_eq!(summarize(b"\n\n").unwrap_err(), ParseError::EmptySeries);
}

#[test]
fn malformed_timestamp_is_an_error() {
    let body = b"not-a-date,20\n";
    assert_eq!(summarize(body).unwrap_err(), ParseError::MalformedRow);
}

#[test]
fn malformed_percentage_is_an_error() {
    assert_eq!(
        summarize(b"2021-01-01T00:00:00,abc\n").unwrap_err(),
        ParseError::MalformedRow
    );
    assert_eq!(
        summarize(b"2021-01-01T00:00:00,1e3\n").unwrap_err(),
        ParseError::MalformedRow
    );
    assert_eq!(
        summarize(b"2021-01-01T00:00:00,.5\n").unwrap_err(),
        ParseError::MalformedRow
    );
    assert_eq!(
        summarize(b"2021-01-01T00:00:00,10000000\n").unwrap_err(),
        ParseError::MalformedRow
    );
}

#[test]
fn missing_percentage_field_is_an_error() {
    assert_eq!(
        summarize(b"2021-01-01T00:00:00\n").unwrap_err(),
        ParseError::MalformedRow
    );
}

#[test]
fn reversed_series_is_an_error() {
    let body = b"2021-01-01T00:02:00,20\n2021-01-01T00:00:00,50\n";
    assert_eq!(summarize(body).unwrap_err(), ParseError::ReversedSeries);
}

#[test]
fn fractional_percentages_are_exact() {
    let body = b"2021-01-01T00:00:00,12.5\n";
    let s = summarize(body).unwrap();
    assert_eq!(s.avg_cpu_usage_e4, 875000);
}

#[test]
fn mean_rounds_half_away_from_zero() {
    // load is 0.00005 percent: rounded to four digits it must become 0.0001
    let body = b"2021-01-01T00:00:00,99.99995\n";
    let s = summarize(body).unwrap();
    assert_eq!(s.avg_cpu_usage_e4, 1);
}

#[test]
fn busy_above_hundred_gives_negative_load() {
    let body = b"2021-01-01T00:00:00,150\n";
    let s = summarize(body).unwrap();
    assert_eq!(s.avg_cpu_usage_e4, -500000);
}

#[test]
fn negative_percentage_is_accepted() {
    let body = b"2021-01-01T00:00:00,-5\n";
    let s = summarize(body).unwrap();
    assert_eq!(s.avg_cpu_usage_e4, 1050000);
}

#[test]
fn carriage_returns_are_tolerated() {
    let body = b"2021-01-01T00:00:00,20\r\n2021-01-01T00:02:00,80\r\n";
    let s = summarize(body).unwrap();
    assert_eq!(s.duration_seconds, 120);
    assert_eq!(s.avg_cpu_usage_e4, 500000);
}

#[test]
fn first_row_is_data_not_a_header() {
    let body = b"2021-01-01T00:00:00,40\n2021-01-01T00:00:30,60\n";
    let s = summarize(body).unwrap();
    assert_eq!(s.duration_seconds, 30);
    assert_eq!(s.avg_cpu_usage_e4, 500000);
}

#[test]
fn rendered_row_has_four_decimal_digits() {
    let row = Summary {
        commit_sha: b"abc123".to_vec(),
        commit_time: b"2021-01-01T00:00:00Z".to_vec(),
        builder: b"x86_64-gnu".to_vec(),
        duration_seconds: 120,
        avg_cpu_usage_e4: 500000,
    };
    assert_eq!(
        row.render_line(),
        b"abc123,2021-01-01T00:00:00Z,x86_64-gnu,120,50.0000\n".to_vec()
    );
}

#[test]
fn rendered_row_pads_and_signs_the_average() {
    let row = Summary {
        commit_sha: b"s".to_vec(),
        commit_time: b"t".to_vec(),
        builder: b"b".to_vec(),
        duration_seconds: 0,
        avg_cpu_usage_e4: -7,
    };
    assert_eq!(row.render_line(), b"s,t,b,0,-0.0007\n".to_vec());
}

#[test]
fn parsed_rows_summary_matches_formula() {
    let rows = vec![
        SampleRow { ts: 1000, load_e6: 80_000_000 },
        SampleRow { ts: 1060, load_e6: 50_000_000 },
        SampleRow { ts: 1120, load_e6: 20_000_000 },
    ];
    let s = summarize_rows(&rows).unwrap();
    assert_eq!(s.duration_seconds, 120);
    assert_eq!(s.avg_cpu_usage_e4, 500000);
}

#[test]
fn parsed_single_row_summary() {
    let rows = vec![SampleRow { ts: 5000, load_e6: 90_000_000 }];
    let s = summarize_rows(&rows).unwrap();
    assert_eq!(s.duration_seconds, 0);
    assert_eq!(s.avg_cpu_usage_e4, 900000);
}

#[test]
fn percentage_parser_is_exact() {
    assert_eq!(parse_percent_e6(b"12.5"), Some(12_500_000));
    assert_eq!(parse_percent_e6(b"0"), Some(0));
    assert_eq!(parse_percent_e6(b"-5"), Some(-5_000_000));
    assert_eq!(parse_percent_e6(b"1."), Some(1_000_000));
    assert_eq!(parse_percent_e6(b"99.9999995"), Some(99_999_999));
    assert_eq!(parse_percent_e6(b"9999999"), Some(9_999_999_000_000));
    assert_eq!(parse_percent_e6(b""), None);
    assert_eq!(parse_percent_e6(b".5"), None);
    assert_eq!(parse_percent_e6(b"10000000"), None);
    assert_eq!(parse_percent_e6(b"1e3"), None);
}
