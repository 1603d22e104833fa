use vstd::prelude::*;
use crate::bytes::clone_bytes;
use crate::resume::ResumeSet;

verus! {

/// One commit of the candidate list, as delivered: its sha and its time
/// string, both opaque bytes to this crate.
pub struct Commit {
    pub sha: Vec<u8>,
    pub time: Vec<u8>,
}

impl View for Commit {
    type V = (Seq<u8>, Seq<u8>);

    open spec fn view(&self) -> (Seq<u8>, Seq<u8>) {
        (self.sha@, self.time@)
    }
}

impl DeepView for Commit {
    type V = (Seq<u8>, Seq<u8>);

    open spec fn deep_view(&self) -> (Seq<u8>, Seq<u8>) {
        self.view()
    }
}

/// One outstanding unit of work: fetch the series of `builder` for the
/// commit named by `sha`, whose time string rides along for the output row.
/// Its key is the `(sha, builder)` pair.
pub struct WorkItem {
    pub sha: Vec<u8>,
    pub time: Vec<u8>,
    pub builder: Vec<u8>,
}

impl View for WorkItem {
    type V = (Seq<u8>, Seq<u8>, Seq<u8>);

    open spec fn view(&self) -> (Seq<u8>, Seq<u8>, Seq<u8>) {
        (self.sha@, self.time@, self.builder@)
    }
}

impl DeepView for WorkItem {
    type V = (Seq<u8>, Seq<u8>, Seq<u8>);

    open spec fn deep_view(&self) -> (Seq<u8>, Seq<u8>, Seq<u8>) {
        self.view()
    }
}

/// The `(sha, builder)` key of a work item's view.
pub open spec fn item_key(v: (Seq<u8>, Seq<u8>, Seq<u8>)) -> (Seq<u8>, Seq<u8>) {
    (v.0, v.2)
}

/// The work one commit contributes: one item per builder whose key is not in
/// the resume set, in builder-catalog order.
pub open spec fn new_keys(
    sha: Seq<u8>,
    time: Seq<u8>,
    builders: Seq<Seq<u8>>,
    resume: Seq<(Seq<u8>, Seq<u8>)>,
) -> Seq<(Seq<u8>, Seq<u8>, Seq<u8>)>
    decreases builders.len(),
{
    if builders.len() == 0 {
        Seq::<(Seq<u8>, Seq<u8>, Seq<u8>)>::empty()
    } else {
        let rest = new_keys(sha, time, builders.drop_first(), resume);
        if resume.contains((sha, builders[0])) {
            rest
        } else {
            seq![(sha, time, builders[0])] + rest
        }
    }
}

/// The outstanding work from commit `i` on, in commit order: each commit
/// contributes its `new_keys`; the scan stops at the first commit that
/// contributes nothing, on the assumption that commits arrive newest-first
/// and fully-done commits are contiguous from there on.
pub open spec fn enumerate_from(
    commits: Seq<(Seq<u8>, Seq<u8>)>,
    builders: Seq<Seq<u8>>,
    resume: Seq<(Seq<u8>, Seq<u8>)>,
    i: int,
) -> Seq<(Seq<u8>, Seq<u8>, Seq<u8>)>
    decreases commits.len() - i,
{
    if i < 0 || i >= commits.len() {
        Seq::<(Seq<u8>, Seq<u8>, Seq<u8>)>::empty()
    } else {
        let nk = new_keys(commits[i].0, commits[i].1, builders, resume);
        if nk.len() == 0 {
            Seq::<(Seq<u8>, Seq<u8>, Seq<u8>)>::empty()
        } else {
            nk + enumerate_from(commits, builders, resume, i + 1)
        }
    }
}

/// The whole ordered outstanding work set.
pub open spec fn enumerate_spec(
    commits: Seq<(Seq<u8>, Seq<u8>)>,
    builders: Seq<Seq<u8>>,
    resume: Seq<(Seq<u8>, Seq<u8>)>,
) -> Seq<(Seq<u8>, Seq<u8>, Seq<u8>)> {
    enumerate_from(commits, builders, resume, 0)
}

/// Produces the ordered outstanding work items, exactly as `enumerate_spec`
/// says: for each commit in input order, every builder whose key is not yet
/// resumed; the scan stops entirely at the first commit that yields nothing.
pub fn enumerate(commits: &Vec<Commit>, builders: &Vec<Vec<u8>>, resume: &ResumeSet) -> (out: Vec<
    WorkItem,
>)
    ensures
        out.deep_view() == enumerate_spec(commits.deep_view(), builders.deep_view(), resume@),
{
    let ghost cv = commits.deep_view();
    let ghost bv = builders.deep_view();
    let ghost rv = resume@;
    let mut out: Vec<WorkItem> = Vec::new();
    let mut i: usize = 0;
    proof {
        assert(out.deep_view() =~= Seq::<(Seq<u8>, Seq<u8>, Seq<u8>)>::empty());
        assert(out.deep_view() + enumerate_from(cv, bv, rv, 0) =~= enumerate_from(cv, bv, rv, 0));
    }
    while i < commits.len()
        invariant
            cv == commits.deep_view(),
            bv == builders.deep_view(),
            rv == resume@,
            i <= commits@.len(),
            cv.len() == commits@.len(),
            enumerate_spec(cv, bv, rv) == out.deep_view() + enumerate_from(cv, bv, rv, i as int),
        decreases commits@.len() - i,
    {
        let c = &commits[i];
        proof {
            assert(cv[i as int] == (c.sha@, c.time@));
        }
        let ghost out0 = out.deep_view();
        let ghost mut acc: Seq<(Seq<u8>, Seq<u8>, Seq<u8>)> = Seq::empty();
        let mut pushed = false;
        let mut j: usize = 0;
        proof {
            assert(bv.subrange(0, bv.len() as int) =~= bv);
            assert(out.deep_view() =~= out0 + acc);
            assert(acc + new_keys(c.sha@, c.time@, bv, rv) =~= new_keys(c.sha@, c.time@, bv, rv));
        }
        while j < builders.len()
            invariant
                cv == commits.deep_view(),
                bv == builders.deep_view(),
                rv == resume@,
                j <= builders@.len(),
                bv.len() == builders@.len(),
                i < commits@.len(),
                cv.len() == commits@.len(),
                cv[i as int] == (commits@[i as int].sha@, commits@[i as int].time@),
                out.deep_view() == out0 + acc,
                new_keys(cv[i as int].0, cv[i as int].1, bv, rv) == acc + new_keys(
                    cv[i as int].0,
                    cv[i as int].1,
                    bv.subrange(j as int, bv.len() as int),
                    rv,
                ),
                pushed == (acc.len() > 0),
            decreases builders@.len() - j,
        {
            let b = &builders[j];
            let c2 = &commits[i];
            proof {
                assert(b.deep_view() =~= b@);
                assert(bv[j as int] == b@);
                assert(c2.sha@ == cv[i as int].0);
                assert(c2.time@ == cv[i as int].1);
                let suffix = bv.subrange(j as int, bv.len() as int);
                assert(suffix[0] == b@);
                assert(suffix.drop_first() =~= bv.subrange(j + 1, bv.len() as int));
            }
            if !resume.contains_key(&c2.sha, b) {
                let item = WorkItem {
                    sha: clone_bytes(&c2.sha),
                    time: clone_bytes(&c2.time),
                    builder: clone_bytes(b),
                };
                let ghost dv0 = out.deep_view();
                proof {
                    assert(item.deep_view() == (cv[i as int].0, cv[i as int].1, bv[j as int]));
                }
                out.push(item);
                proof {
                    assert(out.deep_view() =~= dv0 + seq![(cv[i as int].0, cv[i as int].1, bv[j as int])]);
                    acc = acc.push((cv[i as int].0, cv[i as int].1, bv[j as int]));
                    assert(out.deep_view() =~= out0 + acc);
                    assert(acc + new_keys(cv[i as int].0, cv[i as int].1, bv.subrange(j + 1, bv.len() as int), rv)
                        =~= (acc.drop_last() + seq![(cv[i as int].0, cv[i as int].1, bv[j as int])]) + new_keys(
                        cv[i as int].0,
                        cv[i as int].1,
                        bv.subrange(j + 1, bv.len() as int),
                        rv,
                    ));
                    assert((acc.drop_last() + seq![(cv[i as int].0, cv[i as int].1, bv[j as int])]) + new_keys(
                        cv[i as int].0,
                        cv[i as int].1,
                        bv.subrange(j + 1, bv.len() as int),
                        rv,
                    ) =~= acc.drop_last() + (seq![(cv[i as int].0, cv[i as int].1, bv[j as int])] + new_keys(
                        cv[i as int].0,
                        cv[i as int].1,
                        bv.subrange(j + 1, bv.len() as int),
                        rv,
                    )));
                }
                pushed = true;
            }
            j += 1;
        }
        proof {
            assert(bv.subrange(builders@.len() as int, bv.len() as int).len() == 0);
            assert(acc + new_keys(cv[i as int].0, cv[i as int].1, bv.subrange(
                builders@.len() as int,
                bv.len() as int,
            ), rv) =~= acc);
            assert(new_keys(cv[i as int].0, cv[i as int].1, bv, rv) == acc);
        }
        if !pushed {
            proof {
                assert(enumerate_from(cv, bv, rv, i as int) =~= Seq::<(
                    Seq<u8>,
                    Seq<u8>,
                    Seq<u8>,
                )>::empty());
                assert(out.deep_view() + enumerate_from(cv, bv, rv, i as int) =~= out.deep_view());
            }
            return out;
        }
        proof {
            assert(enumerate_from(cv, bv, rv, i as int) == acc + enumerate_from(cv, bv, rv, i + 1));
            assert((out0 + acc) + enumerate_from(cv, bv, rv, i + 1) =~= out0 + (acc
                + enumerate_from(cv, bv, rv, i + 1)));
        }
        i += 1;
    }
    proof {
        assert(enumerate_from(cv, bv, rv, i as int) =~= Seq::<(Seq<u8>, Seq<u8>, Seq<u8>)>::empty());
        assert(out.deep_view() + enumerate_from(cv, bv, rv, i as int) =~= out.deep_view());
    }
    out
}

/// No enumerated item carries a key that the resume set already holds: work
/// already persisted is neither re-fetched nor re-appended.
pub proof fn lemma_new_keys_exclude_resume(
    sha: Seq<u8>,
    time: Seq<u8>,
    builders: Seq<Seq<u8>>,
    resume: Seq<(Seq<u8>, Seq<u8>)>,
)
    ensures
        forall|k: int|
            0 <= k < new_keys(sha, time, builders, resume).len() ==> {
                let item = #[trigger] new_keys(sha, time, builders, resume)[k];
                item.0 == sha && item.1 == time && builders.contains(item.2) && !resume.contains(
                    item_key(item),
                )
            },
    decreases builders.len(),
{
    if builders.len() > 0 {
        lemma_new_keys_exclude_resume(sha, time, builders.drop_first(), resume);
        assert forall|k: int|
            0 <= k < new_keys(sha, time, builders, resume).len() implies {
            let item = #[trigger] new_keys(sha, time, builders, resume)[k];
            item.0 == sha && item.1 == time && builders.contains(item.2) && !resume.contains(
                item_key(item),
            )
        } by {
            let nk = new_keys(sha, time, builders, resume);
            let rest = new_keys(sha, time, builders.drop_first(), resume);
            if resume.contains((sha, builders[0])) {
                assert(builders.drop_first().contains(nk[k].2));
                let w = choose|w: int|
                    0 <= w < builders.drop_first().len() && builders.drop_first()[w] == nk[k].2;
                assert(builders[w + 1] == nk[k].2);
            } else {
                if k == 0 {
                    assert(nk[0] == (sha, time, builders[0]));
                    assert(builders[0] == nk[0].2);
                } else {
                    assert(nk[k] == rest[k - 1]);
                    assert(builders.drop_first().contains(rest[k - 1].2));
                    let w = choose|w: int|
                        0 <= w < builders.drop_first().len() && builders.drop_first()[w] == rest[k
                            - 1].2;
                    assert(builders[w + 1] == rest[k - 1].2);
                }
            }
        }
    }
}

/// Resume correctness: every item the enumerator emits, from any starting
/// commit, has a key outside the resume set.
pub proof fn lemma_enumerate_excludes_resume(
    commits: Seq<(Seq<u8>, Seq<u8>)>,
    builders: Seq<Seq<u8>>,
    resume: Seq<(Seq<u8>, Seq<u8>)>,
    i: int,
)
    ensures
        forall|k: int|
            0 <= k < enumerate_from(commits, builders, resume, i).len() ==> !resume.contains(
                item_key(#[trigger] enumerate_from(commits, builders, resume, i)[k]),
            ),
    decreases commits.len() - i,
{
    if 0 <= i < commits.len() {
        let nk = new_keys(commits[i].0, commits[i].1, builders, resume);
        lemma_new_keys_exclude_resume(commits[i].0, commits[i].1, builders, resume);
        if nk.len() != 0 {
            lemma_enumerate_excludes_resume(commits, builders, resume, i + 1);
            assert forall|k: int|
                0 <= k < enumerate_from(commits, builders, resume, i).len() implies !resume
                .contains(item_key(enumerate_from(commits, builders, resume, i)[k])) by {
                if k >= nk.len() {
                    assert(enumerate_from(commits, builders, resume, i)[k] == enumerate_from(
                        commits,
                        builders,
                        resume,
                        i + 1,
                    )[k - nk.len()]);
                }
            }
        }
    }
}

/// The early-termination heuristic: if some commit contributes no new work,
/// the scan never reaches past it, so every emitted item belongs to an
/// earlier commit — even if later commits still have unresolved builders.
pub proof fn lemma_enumerate_stops_at_done(
    commits: Seq<(Seq<u8>, Seq<u8>)>,
    builders: Seq<Seq<u8>>,
    resume: Seq<(Seq<u8>, Seq<u8>)>,
    i: int,
    done: int,
)
    requires
        0 <= i <= done < commits.len(),
        new_keys(commits[done].0, commits[done].1, builders, resume).len() == 0,
    ensures
        forall|k: int|
            0 <= k < enumerate_from(commits, builders, resume, i).len() ==> exists|j: int|
                i <= j < done && (#[trigger] enumerate_from(commits, builders, resume, i)[k]).0
                    == commits[j].0 && enumerate_from(commits, builders, resume, i)[k].1
                    == commits[j].1,
    decreases done - i,
{
    if i == done {
        assert(enumerate_from(commits, builders, resume, i).len() == 0);
    } else {
        let nk = new_keys(commits[i].0, commits[i].1, builders, resume);
        if nk.len() != 0 {
            lemma_enumerate_stops_at_done(commits, builders, resume, i + 1, done);
            lemma_new_keys_exclude_resume(commits[i].0, commits[i].1, builders, resume);
            assert forall|k: int|
                0 <= k < enumerate_from(commits, builders, resume, i).len() implies exists|j: int|
                i <= j < done && (#[trigger] enumerate_from(commits, builders, resume, i)[k]).0
                    == commits[j].0 && enumerate_from(commits, builders, resume, i)[k].1
                    == commits[j].1 by {
                let e = enumerate_from(commits, builders, resume, i);
                if k < nk.len() {
                    assert(e[k] == nk[k]);
                    assert(e[k].0 == commits[i].0 && e[k].1 == commits[i].1);
                } else {
                    assert(e[k] == enumerate_from(commits, builders, resume, i + 1)[k - nk.len()]);
                    let j = choose|j: int|
                        (i + 1) <= j < done && enumerate_from(commits, builders, resume, i + 1)[k
                            - nk.len()].0 == commits[j].0 && enumerate_from(
                            commits,
                            builders,
                            resume,
                            i + 1,
                        )[k - nk.len()].1 == commits[j].1;
                    assert(i <= j < done && e[k].0 == commits[j].0 && e[k].1 == commits[j].1);
                }
            }
        }
    }
}

/// Whether no two commits share a sha.
pub open spec fn distinct_shas(commits: Seq<(Seq<u8>, Seq<u8>)>) -> bool {
    forall|m: int, n: int| 0 <= m < n < commits.len() ==> commits[m].0 != commits[n].0
}

/// One commit's contribution holds no key twice, as long as the builder
/// catalog holds no builder twice.
pub proof fn lemma_new_keys_nodup(
    sha: Seq<u8>,
    time: Seq<u8>,
    builders: Seq<Seq<u8>>,
    resume: Seq<(Seq<u8>, Seq<u8>)>,
)
    requires
        builders.no_duplicates(),
    ensures
        forall|m: int, n: int|
            0 <= m < n < new_keys(sha, time, builders, resume).len() ==> item_key(
                #[trigger] new_keys(sha, time, builders, resume)[m],
            ) != item_key(#[trigger] new_keys(sha, time, builders, resume)[n]),
    decreases builders.len(),
{
    if builders.len() > 0 {
        let tail = builders.drop_first();
        assert(tail.no_duplicates()) by {
            assert(forall|m: int, n: int|
                0 <= m < n < tail.len() ==> tail[m] == builders[m + 1] && tail[n] == builders[n
                    + 1]);
        }
        lemma_new_keys_nodup(sha, time, tail, resume);
        lemma_new_keys_exclude_resume(sha, time, tail, resume);
        let rest = new_keys(sha, time, tail, resume);
        if !resume.contains((sha, builders[0])) {
            let nk = new_keys(sha, time, builders, resume);
            assert forall|m: int, n: int| 0 <= m < n < nk.len() implies item_key(nk[m])
                != item_key(nk[n]) by {
                if m == 0 {
                    assert(nk[0] == (sha, time, builders[0]));
                    assert(nk[n] == rest[n - 1]);
                    assert(tail.contains(rest[n - 1].2));
                    let w = choose|w: int| 0 <= w < tail.len() && tail[w] == rest[n - 1].2;
                    assert(builders[w + 1] == rest[n - 1].2);
                    assert(builders[0] != builders[w + 1]);
                } else {
                    assert(nk[m] == rest[m - 1] && nk[n] == rest[n - 1]);
                }
            }
        }
    }
}

/// The whole enumeration holds no key twice, as long as the builder catalog
/// holds no builder twice and no two commits share a sha; and every emitted
/// item carries the sha and time of some commit at or after the start.
pub proof fn lemma_enumerate_nodup(
    commits: Seq<(Seq<u8>, Seq<u8>)>,
    builders: Seq<Seq<u8>>,
    resume: Seq<(Seq<u8>, Seq<u8>)>,
    i: int,
)
    requires
        builders.no_duplicates(),
        distinct_shas(commits),
    ensures
        forall|m: int, n: int|
            0 <= m < n < enumerate_from(commits, builders, resume, i).len() ==> item_key(
                #[trigger] enumerate_from(commits, builders, resume, i)[m],
            ) != item_key(#[trigger] enumerate_from(commits, builders, resume, i)[n]),
        forall|k: int|
            0 <= k < enumerate_from(commits, builders, resume, i).len() ==> exists|j: int|
                i <= j < commits.len() && (#[trigger] enumerate_from(commits, builders, resume, i)[k]).0
                    == commits[j].0,
    decreases commits.len() - i,
{
    if 0 <= i < commits.len() {
        let nk = new_keys(commits[i].0, commits[i].1, builders, resume);
        let e = enumerate_from(commits, builders, resume, i);
        lemma_new_keys_nodup(commits[i].0, commits[i].1, builders, resume);
        lemma_new_keys_exclude_resume(commits[i].0, commits[i].1, builders, resume);
        if nk.len() != 0 {
            lemma_enumerate_nodup(commits, builders, resume, i + 1);
            let rest = enumerate_from(commits, builders, resume, i + 1);
            assert forall|k: int| 0 <= k < e.len() implies exists|j: int|
                i <= j < commits.len() && (#[trigger] e[k]).0 == commits[j].0 by {
                if k < nk.len() {
                    assert(e[k] == nk[k]);
                    assert(i <= i < commits.len() && e[k].0 == commits[i].0);
                } else {
                    assert(e[k] == rest[k - nk.len()]);
                    let j = choose|j: int|
                        (i + 1) <= j < commits.len() && rest[k - nk.len()].0 == commits[j].0;
                    assert(i <= j < commits.len() && e[k].0 == commits[j].0);
                }
            }
            assert forall|m: int, n: int| 0 <= m < n < e.len() implies item_key(e[m])
                != item_key(e[n]) by {
                if m < nk.len() && n < nk.len() {
                    assert(e[m] == nk[m] && e[n] == nk[n]);
                } else if m >= nk.len() {
                    assert(e[m] == rest[m - nk.len()] && e[n] == rest[n - nk.len()]);
                } else {
                    assert(e[m] == nk[m]);
                    assert(e[n] == rest[n - nk.len()]);
                    assert(e[m].0 == commits[i].0);
                    let j = choose|j: int|
                        (i + 1) <= j < commits.len() && rest[n - nk.len()].0 == commits[j].0;
                    assert(commits[i].0 != commits[j].0);
                }
            }
        }
    }
}

/// Idempotence of a completed run: when every builder's key for the first
/// commit is already in the resume set, a fresh enumeration yields no work
/// at all, so a second run against an unchanged commit list performs no
/// fetches.
pub proof fn lemma_second_run_enumerates_nothing(
    commits: Seq<(Seq<u8>, Seq<u8>)>,
    builders: Seq<Seq<u8>>,
    resume: Seq<(Seq<u8>, Seq<u8>)>,
)
    requires
        commits.len() > 0,
        forall|j: int|
            0 <= j < builders.len() ==> resume.contains((commits[0].0, #[trigger] builders[j])),
    ensures
        enumerate_spec(commits, builders, resume).len() == 0,
{
    lemma_all_resumed_no_new_keys(commits[0].0, commits[0].1, builders, resume);
}

pub proof fn lemma_all_resumed_no_new_keys(
    sha: Seq<u8>,
    time: Seq<u8>,
    builders: Seq<Seq<u8>>,
    resume: Seq<(Seq<u8>, Seq<u8>)>,
)
    requires
        forall|j: int| 0 <= j < builders.len() ==> resume.contains((sha, #[trigger] builders[j])),
    ensures
        new_keys(sha, time, builders, resume).len() == 0,
    decreases builders.len(),
{
    if builders.len() > 0 {
        assert(resume.contains((sha, builders[0])));
        assert(forall|j: int|
            0 <= j < builders.drop_first().len() ==> builders.drop_first()[j] == builders[j + 1]);
        lemma_all_resumed_no_new_keys(sha, time, builders.drop_first(), resume);
    }
}

} // verus!
