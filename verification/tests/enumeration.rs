use cpu_usage_pipeline::enumerate::{enumerate, Commit, WorkItem};
use cpu_usage_pipeline::fetch::fetch_url;
use cpu_usage_pipeline::resume::ResumeSet;

fn commit(sha: &str, time: &str) -> Commit {
    Commit { sha: sha.as_bytes().to_vec(), time: time.as_bytes().to_vec() }
}

fn builders(names: &[&str]) -> Vec<Vec<u8>> {
    names.iter().map(|n| n.as_bytes().to_vec()).collect()
}

fn keys(items: &[WorkItem]) -> Vec<(String, String)> {
    items
        .iter()
        .map(|i| {
            (
                String::from_utf8(i.sha.clone()).unwrap(),
                String::from_utf8(i.builder.clone()).unwrap(),
            )
        })
        .collect()
}

#[test]
fn fresh_run_enumerates_every_pair_in_order() {
    let commits = vec![commit("c1", "t1"), commit("c2", "t2")];
    let bs = builders(&["b1", "b2"]);
    let resume = ResumeSet::new();
    let work = enumerate(&commits, &bs, &resume);
    assert_eq!(
        keys(&work),
        vec![
            ("c1".to_string(), "b1".to_string()),
            ("c1".to_string(), "b2".to_string()),
            ("c2".to_string(), "b1".to_string()),
            ("c2".to_string(), "b2".to_string()),
        ]
    );
    assert_eq!(work[0].time, b"t1".to_vec());
}

#[test]
fn resumed_keys_are_not_re_enumerated() {
    let commits = vec![commit("c1", "t1"), commit("c2", "t2")];
    let bs = builders(&["b1", "b2"]);
    let resume = ResumeSet { keys: vec![(b"c1".to_vec(), b"b2".to_vec())] };
    let work = enumerate(&commits, &bs, &resume);
    assert_eq!(
        keys(&work),
        vec![
            ("c1".to_string(), "b1".to_string()),
            ("c2".to_string(), "b1".to_string()),
            ("c2".to_string(), "b2".to_string()),
        ]
    );
}

#[test]
fn fully_done_first_commit_stops_the_scan() {
    let commits = vec![commit("c1", "t1"), commit("c2", "t2"), commit("c3", "t3")];
    let bs = builders(&["b1", "b2"]);
    let resume = ResumeSet {
        keys: vec![(b"c1".to_vec(), b"b1".to_vec()), (b"c1".to_vec(), b"b2".to_vec())],
    };
    let work = enumerate(&commits, &bs, &resume);
    assert!(work.is_empty());
}

#[test]
fn fully_done_middle_commit_stops_the_scan() {
    let commits = vec![commit("c1", "t1"), commit("c2", "t2"), commit("c3", "t3")];
    let bs = builders(&["b1"]);
    let resume = ResumeSet { keys: vec![(b"c2".to_vec(), b"b1".to_vec())] };
    let work = enumerate(&commits, &bs, &resume);
    assert_eq!(keys(&work), vec![("c1".to_string(), "b1".to_string())]);
}

#[test]
fn resume_set_is_reconstructed_from_dataset_columns() {
    let data = b"c1,t1,b1,120,50.0000\nc2,t2,b2,0,90.0000\nshort,row\n";
    let resume = ResumeSet::load(data);
    assert_eq!(resume.len(), 2);
    assert!(resume.contains_key(&b"c1".to_vec(), &b"b1".to_vec()));
    assert!(resume.contains_key(&b"c2".to_vec(), &b"b2".to_vec()));
    assert!(!resume.contains_key(&b"c1".to_vec(), &b"b2".to_vec()));
    assert!(!resume.contains_key(&b"short".to_vec(), &b"row".to_vec()));
}

#[test]
fn missing_dataset_reads_as_nothing_completed() {
    let resume = ResumeSet::load(b"");
    assert!(resume.is_empty());
}

#[test]
fn url_uses_plain_prefix_for_ordinary_builders() {
    let url = fetch_url(&b"deadbeef".to_vec(), &b"x86_64-gnu".to_vec());
    assert_eq!(
        String::from_utf8(url).unwrap(),
        "https://ci-artifacts.rust-lang.org/rustc-builds/deadbeef/cpu-x86_64-gnu.csv"
    );
}

#[test]
fn url_routes_alt_builders_to_alt_prefix() {
    let url = fetch_url(&b"deadbeef".to_vec(), &b"dist-x86_64-linux-alt".to_vec());
    assert_eq!(
        String::from_utf8(url).unwrap(),
        "https://ci-artifacts.rust-lang.org/rustc-builds-alt/deadbeef/cpu-dist-x86_64-linux-alt.csv"
    );
}
