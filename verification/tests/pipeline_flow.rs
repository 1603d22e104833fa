use cpu_usage_pipeline::enumerate::Commit;
use cpu_usage_pipeline::errors::FetchError;
use cpu_usage_pipeline::pipeline::{Action, FetchOutcome, Pipeline};
use cpu_usage_pipeline::resume::ResumeSet;

fn commit(sha: &str, time: &str) -> Commit {
    Commit { sha: sha.as_bytes().to_vec(), time: time.as_bytes().to_vec() }
}

fn builders(names: &[&str]) -> Vec<Vec<u8>> {
    names.iter().map(|n| n.as_bytes().to_vec()).collect()
}

const SERIES: &[u8] = b"2021-01-01T00:00:00,20\n2021-01-01T00:02:00,80\n";

#[test]
fn not_found_is_skipped_and_writes_no_row() {
    let commits = vec![commit("c1", "t1")];
    let bs = builders(&["b1"]);
    let resume = ResumeSet::new();
    let mut p = Pipeline::new(&commits, &bs, &resume, 8);
    let item = p.next_launch().unwrap();
    let a = p.on_outcome(&item, FetchOutcome::Failed(FetchError::NotFound));
    assert!(matches!(a, Action::Skip));
    assert!(p.next_launch().is_none());
}

#[test]
fn http_and_transport_failures_are_reported_not_fatal() {
    let commits = vec![commit("c1", "t1")];
    let bs = builders(&["b1", "b2"]);
    let resume = ResumeSet::new();
    let mut p = Pipeline::new(&commits, &bs, &resume, 8);
    let i1 = p.next_launch().unwrap();
    let i2 = p.next_launch().unwrap();
    assert!(matches!(
        p.on_outcome(&i1, FetchOutcome::Failed(FetchError::Http(500))),
        Action::Report
    ));
    assert!(matches!(
        p.on_outcome(&i2, FetchOutcome::Failed(FetchError::Transport)),
        Action::Report
    ));
}

#[test]
fn successful_fetch_yields_the_rendered_row() {
    let commits = vec![commit("abc123", "2021-01-01T00:05:00Z")];
    let bs = builders(&["x86_64-gnu"]);
    let resume = ResumeSet::new();
    let mut p = Pipeline::new(&commits, &bs, &resume, 8);
    let item = p.next_launch().unwrap();
    let a = p.on_outcome(&item, FetchOutcome::Success(SERIES.to_vec()));
    match a {
        Action::Append(line) => assert_eq!(
            line,
            b"abc123,2021-01-01T00:05:00Z,x86_64-gnu,120,50.0000\n".to_vec()
        ),
        _ => panic!("expected an append"),
    }
}

#[test]
fn empty_series_writes_no_row() {
    let commits = vec![commit("c1", "t1")];
    let bs = builders(&["b1"]);
    let resume = ResumeSet::new();
    let mut p = Pipeline::new(&commits, &bs, &resume, 8);
    let item = p.next_launch().unwrap();
    let a = p.on_outcome(&item, FetchOutcome::Success(Vec::new()));
    assert!(matches!(a, Action::Report));
}

#[test]
fn unknown_completion_changes_nothing() {
    let commits = vec![commit("c1", "t1")];
    let bs = builders(&["b1"]);
    let resume = ResumeSet::new();
    let mut p = Pipeline::new(&commits, &bs, &resume, 8);
    let stray = cpu_usage_pipeline::enumerate::WorkItem {
        sha: b"zz".to_vec(),
        time: b"tt".to_vec(),
        builder: b"bb".to_vec(),
    };
    let a = p.on_outcome(&stray, FetchOutcome::Success(SERIES.to_vec()));
    assert!(matches!(a, Action::Skip));
    assert!(p.next_launch().is_some());
}

#[test]
fn in_flight_fetches_never_exceed_the_ceiling() {
    let commits = vec![commit("c1", "t1"), commit("c2", "t2")];
    let bs = builders(&["b1", "b2", "b3"]);
    let resume = ResumeSet::new();
    let mut p = Pipeline::new(&commits, &bs, &resume, 2);
    let i1 = p.next_launch().unwrap();
    let _i2 = p.next_launch().unwrap();
    assert!(p.next_launch().is_none());
    let a = p.on_outcome(&i1, FetchOutcome::Failed(FetchError::NotFound));
    assert!(matches!(a, Action::Skip));
    assert!(p.next_launch().is_some());
    assert!(p.next_launch().is_none());
}

#[test]
fn second_run_against_unchanged_inputs_fetches_nothing() {
    let commits = vec![commit("c1", "2021-01-01T00:05:00Z"), commit("c2", "2021-01-02T00:05:00Z")];
    let bs = builders(&["b1", "b2"]);

    // First run: everything fetches successfully; collect the dataset.
    let resume = ResumeSet::new();
    let mut p = Pipeline::new(&commits, &bs, &resume, 256);
    let mut dataset: Vec<u8> = Vec::new();
    let mut fetches = 0;
    while let Some(item) = p.next_launch() {
        fetches += 1;
        match p.on_outcome(&item, FetchOutcome::Success(SERIES.to_vec())) {
            Action::Append(line) => dataset.extend_from_slice(&line),
            _ => panic!("expected an append"),
        }
    }
    assert_eq!(fetches, 4);

    // No two rows of the dataset share a key.
    let mut seen: Vec<(String, String)> = Vec::new();
    for line in String::from_utf8(dataset.clone()).unwrap().lines() {
        let cols: Vec<&str> = line.split(',').collect();
        let key = (cols[0].to_string(), cols[2].to_string());
        assert!(!seen.contains(&key));
        seen.push(key);
    }

    // Second run resumes from the dataset and enumerates no work at all.
    let resume2 = ResumeSet::load(&dataset);
    let mut p2 = Pipeline::new(&commits, &bs, &resume2, 256);
    assert!(p2.next_launch().is_none());
    assert_eq!(p2.work_items.len(), 0);
}

#[test]
fn interrupted_run_resumes_only_unfinished_work() {
    let commits = vec![commit("c1", "2021-01-01T00:05:00Z")];
    let bs = builders(&["b1", "b2"]);

    // First run completes only b1 before stopping.
    let resume = ResumeSet::new();
    let mut p = Pipeline::new(&commits, &bs, &resume, 256);
    let item = p.next_launch().unwrap();
    let mut dataset: Vec<u8> = Vec::new();
    match p.on_outcome(&item, FetchOutcome::Success(SERIES.to_vec())) {
        Action::Append(line) => dataset.extend_from_slice(&line),
        _ => panic!("expected an append"),
    }

    // The next run fetches only the b2 key.
    let resume2 = ResumeSet::load(&dataset);
    let mut p2 = Pipeline::new(&commits, &bs, &resume2, 256);
    let only = p2.next_launch().unwrap();
    assert_eq!(only.builder, b"b2".to_vec());
    assert!(p2.next_launch().is_none());
}
