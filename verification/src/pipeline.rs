use vstd::prelude::*;
use crate::bytes::{bytes_eq, clone_bytes};
use crate::enumerate::{
    distinct_shas, enumerate, enumerate_spec, item_key, lemma_enumerate_excludes_resume,
    lemma_enumerate_nodup, Commit, WorkItem,
};
use crate::errors::FetchError;
use crate::resume::ResumeSet;
use crate::series::{summarize, summarize_spec, summary_line, Summary};

verus! {

/// What one fetch handed back for its work item.
pub enum FetchOutcome {
    /// The raw series payload, fetched successfully.
    Success(Vec<u8>),
    /// A typed fetch failure.
    Failed(FetchError),
}

/// What the orchestrator must now do for one completed work item.
pub enum Action {
    /// Append this rendered row to the dataset; a failure to persist it is
    /// fatal for the run.
    Append(Vec<u8>),
    /// Do nothing: the artifact was never produced for this key, or the
    /// completion did not match an outstanding item.
    Skip,
    /// Report a non-fatal failure and continue; no row is written, so a
    /// later run will retry this key.
    Report,
}

/// The orchestrator's state machine. It owns the outstanding work in order,
/// admits at most `cap` fetches in flight at once, and decides what each
/// completed fetch leads to. The caller performs the fetches and the
/// appends; every decision is made here.
pub struct Pipeline {
    /// The enumerated work, in order; items before `next` were launched.
    pub work_items: Vec<WorkItem>,
    /// The first work item not yet handed out.
    pub next: usize,
    /// The keys handed out and not yet completed.
    pub outstanding: Vec<(Vec<u8>, Vec<u8>)>,
    /// The concurrency ceiling.
    pub cap: usize,
    /// The keys whose rows this run has appended.
    pub emitted: Ghost<Seq<(Seq<u8>, Seq<u8>)>>,
    /// The resume set this run started from.
    pub resume_snap: Ghost<Seq<(Seq<u8>, Seq<u8>)>>,
}

impl Pipeline {
    pub open spec fn work_views(self) -> Seq<(Seq<u8>, Seq<u8>, Seq<u8>)> {
        self.work_items.deep_view()
    }

    pub open spec fn outstanding_keys(self) -> Seq<(Seq<u8>, Seq<u8>)> {
        self.outstanding@.map_values(|p: (Vec<u8>, Vec<u8>)| (p.0@, p.1@))
    }

    pub open spec fn in_flight(self) -> nat {
        self.outstanding@.len()
    }

    /// Well-formedness: the concurrency ceiling holds, and no key the run
    /// may still touch — queued, in flight, or already appended — is in the
    /// resume set it started from.
    pub open spec fn inv(self) -> bool {
        &&& self.next <= self.work_views().len()
        &&& self.in_flight() <= self.cap
        &&& forall|k: int|
            self.next <= k < self.work_views().len() ==> !self.resume_snap@.contains(
                item_key(#[trigger] self.work_views()[k]),
            )
        &&& forall|k: int|
            0 <= k < self.outstanding_keys().len() ==> !self.resume_snap@.contains(
                #[trigger] self.outstanding_keys()[k],
            )
        &&& forall|k: int|
            0 <= k < self.emitted@.len() ==> !self.resume_snap@.contains(
                #[trigger] self.emitted@[k],
            )
    }

    /// Key uniqueness: the keys still queued, the keys in flight, and the
    /// keys already appended are pairwise different, so no row is ever
    /// appended twice within a run.
    pub open spec fn keys_distinct(self) -> bool {
        &&& forall|m: int, n: int|
            self.next <= m < n < self.work_views().len() ==> item_key(
                #[trigger] self.work_views()[m],
            ) != item_key(#[trigger] self.work_views()[n])
        &&& self.outstanding_keys().no_duplicates()
        &&& self.emitted@.no_duplicates()
        &&& forall|m: int, n: int|
            self.next <= m < self.work_views().len() && 0 <= n < self.outstanding_keys().len()
                ==> item_key(#[trigger] self.work_views()[m]) != #[trigger] self.outstanding_keys()[n]
        &&& forall|m: int, n: int|
            self.next <= m < self.work_views().len() && 0 <= n < self.emitted@.len() ==> item_key(
                #[trigger] self.work_views()[m],
            ) != #[trigger] self.emitted@[n]
        &&& forall|m: int, n: int|
            0 <= m < self.outstanding_keys().len() && 0 <= n < self.emitted@.len()
                ==> #[trigger] self.outstanding_keys()[m] != #[trigger] self.emitted@[n]
    }

    /// Wires the run up: enumerates the outstanding work from the commit
    /// list, the builder catalog and the resume set, with nothing launched
    /// and nothing appended yet.
    pub fn new(
        commits: &Vec<Commit>,
        builders: &Vec<Vec<u8>>,
        resume: &ResumeSet,
        max_inflight: usize,
    ) -> (p: Pipeline)
        ensures
            p.inv(),
            p.cap == max_inflight,
            p.work_views() == enumerate_spec(commits.deep_view(), builders.deep_view(), resume@),
            p.next == 0,
            p.in_flight() == 0,
            p.emitted@ == Seq::<(Seq<u8>, Seq<u8>)>::empty(),
            p.resume_snap@ == resume@,
            builders.deep_view().no_duplicates() && distinct_shas(commits.deep_view())
                ==> p.keys_distinct(),
    {
        let work_items = enumerate(commits, builders, resume);
        let p = Pipeline {
            work_items,
            next: 0,
            outstanding: Vec::new(),
            cap: max_inflight,
            emitted: Ghost(Seq::empty()),
            resume_snap: Ghost(resume@),
        };
        proof {
            lemma_enumerate_excludes_resume(
                commits.deep_view(),
                builders.deep_view(),
                resume@,
                0,
            );
            assert(p.outstanding_keys() =~= Seq::<(Seq<u8>, Seq<u8>)>::empty());
            if builders.deep_view().no_duplicates() && distinct_shas(commits.deep_view()) {
                lemma_enumerate_nodup(commits.deep_view(), builders.deep_view(), resume@, 0);
            }
        }
        p
    }

    /// Hands out the next work item if any is queued and the concurrency
    /// ceiling leaves room, marking its key outstanding; `None` otherwise.
    pub fn next_launch(&mut self) -> (r: Option<WorkItem>)
        requires
            old(self).inv(),
        ensures
            final(self).inv(),
            old(self).keys_distinct() ==> final(self).keys_distinct(),
            final(self).cap == old(self).cap,
            final(self).work_views() == old(self).work_views(),
            final(self).emitted@ == old(self).emitted@,
            final(self).resume_snap@ == old(self).resume_snap@,
            (r is Some) == (old(self).next < old(self).work_views().len() && old(self).in_flight()
                < old(self).cap),
            r is Some ==> {
                &&& final(self).next == old(self).next + 1
                &&& r->Some_0.deep_view() == old(self).work_views()[old(self).next as int]
                &&& final(self).outstanding_keys() == old(self).outstanding_keys().push(
                    item_key(r->Some_0.deep_view()),
                )
                &&& final(self).in_flight() == old(self).in_flight() + 1
            },
            r is None ==> *final(self) == *old(self),
    {
        if self.next >= self.work_items.len() {
            return None;
        }
        if self.outstanding.len() >= self.cap {
            return None;
        }
        let src = &self.work_items[self.next];
        let item = WorkItem {
            sha: clone_bytes(&src.sha),
            time: clone_bytes(&src.time),
            builder: clone_bytes(&src.builder),
        };
        let key = (clone_bytes(&item.sha), clone_bytes(&item.builder));
        proof {
            assert(self.work_items@[self.next as int].deep_view() == self.work_views()[
                self.next as int]);
            assert(item.deep_view() == self.work_views()[self.next as int]);
        }
        let ghost before = self.outstanding_keys();
        self.outstanding.push(key);
        self.next = self.next + 1;
        proof {
            assert(self.outstanding_keys() =~= before.push(item_key(item.deep_view())));
        }
        Some(item)
    }

    /// Takes one completed fetch and decides what it leads to. A completion
    /// whose key is not outstanding changes nothing. A missing artifact is
    /// skipped silently; any other fetch failure, and any series that does
    /// not summarize, is reported and leaves no row; a summarized series
    /// yields the rendered row to append, and its key is recorded emitted.
    pub fn on_outcome(&mut self, item: &WorkItem, outcome: FetchOutcome) -> (a: Action)
        requires
            old(self).inv(),
        ensures
            final(self).inv(),
            old(self).keys_distinct() ==> final(self).keys_distinct(),
            final(self).cap == old(self).cap,
            final(self).work_views() == old(self).work_views(),
            final(self).next == old(self).next,
            final(self).resume_snap@ == old(self).resume_snap@,
            !old(self).outstanding_keys().contains(item_key(item.deep_view())) ==> {
                &&& *final(self) == *old(self)
                &&& a == Action::Skip
            },
            old(self).outstanding_keys().contains(item_key(item.deep_view())) ==> {
                &&& final(self).in_flight() == old(self).in_flight() - 1
                &&& exists|ix: int|
                    0 <= ix < old(self).outstanding_keys().len()
                        && old(self).outstanding_keys()[ix] == item_key(item.deep_view())
                        && final(self).outstanding_keys() == old(self).outstanding_keys().update(
                        ix,
                        old(self).outstanding_keys().last(),
                    ).drop_last()
                &&& match outcome {
                    FetchOutcome::Failed(FetchError::NotFound) => a == Action::Skip
                        && final(self).emitted@ == old(self).emitted@,
                    FetchOutcome::Failed(_) => a == Action::Report && final(self).emitted@ == old(
                        self,
                    ).emitted@,
                    FetchOutcome::Success(body) => match summarize_spec(body@) {
                        Err(_) => a == Action::Report && final(self).emitted@ == old(self).emitted@,
                        Ok(ss) => {
                            &&& final(self).emitted@ == old(self).emitted@.push(
                                item_key(item.deep_view()),
                            )
                            &&& (a matches Action::Append(line) && line@ == summary_line(
                                item.sha@,
                                item.time@,
                                item.builder@,
                                ss.duration_seconds as nat,
                                ss.avg_cpu_usage_e4 as int,
                            ))
                        },
                    },
                }
            },
    {
        let mut found = false;
        let mut idx: usize = 0;
        let n = self.outstanding.len();
        let ghost key = item_key(item.deep_view());
        while !found && idx < n
            invariant
                n == self.outstanding@.len(),
                idx <= n,
                key == item_key(item.deep_view()),
                !found ==> forall|j: int| 0 <= j < idx ==> self.outstanding_keys()[j] != key,
                found ==> idx < n && self.outstanding_keys()[idx as int] == key,
            decreases n - idx + (if found { 0int } else { 1int }),
        {
            let hit = bytes_eq(&self.outstanding[idx].0, &item.sha) && bytes_eq(
                &self.outstanding[idx].1,
                &item.builder,
            );
            if hit {
                found = true;
                proof {
                    assert(self.outstanding_keys()[idx as int] == key);
                }
            } else {
                idx += 1;
            }
        }
        if !found {
            proof {
                assert(!self.outstanding_keys().contains(key)) by {
                    if self.outstanding_keys().contains(key) {
                        let w = choose|w: int|
                            0 <= w < self.outstanding_keys().len() && self.outstanding_keys()[w]
                                == key;
                        assert(self.outstanding_keys()[w] != key);
                    }
                }
            }
            return Action::Skip;
        }
        let ghost before = self.outstanding_keys();
        let _removed = self.outstanding.swap_remove(idx);
        proof {
            assert(self.outstanding_keys() =~= before.update(idx as int, before.last()).drop_last());
            assert(before.contains(key)) by {
                assert(before[idx as int] == key);
            }
        }
        match outcome {
            FetchOutcome::Failed(FetchError::NotFound) => Action::Skip,
            FetchOutcome::Failed(FetchError::Http(_)) => Action::Report,
            FetchOutcome::Failed(FetchError::Transport) => Action::Report,
            FetchOutcome::Success(body) => {
                match summarize(body.as_slice()) {
                    Err(_) => Action::Report,
                    Ok(ss) => {
                        let row = Summary {
                            commit_sha: clone_bytes(&item.sha),
                            commit_time: clone_bytes(&item.time),
                            builder: clone_bytes(&item.builder),
                            duration_seconds: ss.duration_seconds,
                            avg_cpu_usage_e4: ss.avg_cpu_usage_e4,
                        };
                        let line = row.render_line();
                        proof {
                            self.emitted@ = self.emitted@.push(key);
                        }
                        Action::Append(line)
                    },
                }
            },
        }
    }
}

/// The concurrency ceiling: a well-formed pipeline never has more fetches in
/// flight than its cap, however much work is queued.
pub proof fn lemma_concurrency_ceiling(p: Pipeline)
    requires
        p.inv(),
    ensures
        p.in_flight() <= p.cap,
{
}

/// Resume correctness: in a well-formed pipeline, no key of the resume set
/// it started from is queued, in flight, or appended again.
pub proof fn lemma_resume_never_touched(p: Pipeline, key: (Seq<u8>, Seq<u8>))
    requires
        p.inv(),
        p.resume_snap@.contains(key),
    ensures
        forall|k: int|
            p.next <= k < p.work_views().len() ==> item_key(#[trigger] p.work_views()[k]) != key,
        !p.outstanding_keys().contains(key),
        !p.emitted@.contains(key),
{
    assert forall|k: int|
        p.next <= k < p.work_views().len() implies item_key(#[trigger] p.work_views()[k])
        != key by {}
    if p.outstanding_keys().contains(key) {
        let w = choose|w: int|
            0 <= w < p.outstanding_keys().len() && p.outstanding_keys()[w] == key;
    }
    if p.emitted@.contains(key) {
        let w = choose|w: int| 0 <= w < p.emitted@.len() && p.emitted@[w] == key;
    }
}

/// Idempotence of the dataset: a dataset whose keys were distinct and whose
/// key set the run resumed from stays free of duplicate keys once the run's
/// appended rows are added.
pub proof fn lemma_no_duplicate_rows(p: Pipeline, dataset_keys: Seq<(Seq<u8>, Seq<u8>)>)
    requires
        p.inv(),
        p.keys_distinct(),
        dataset_keys.no_duplicates(),
        forall|k: (Seq<u8>, Seq<u8>)| #![auto] dataset_keys.contains(k) ==> p.resume_snap@.contains(k),
    ensures
        (dataset_keys + p.emitted@).no_duplicates(),
{
    let all = dataset_keys + p.emitted@;
    assert forall|m: int, n: int| 0 <= m < n < all.len() implies all[m] != all[n] by {
        if m < dataset_keys.len() && n >= dataset_keys.len() {
            assert(all[m] == dataset_keys[m]);
            assert(all[n] == p.emitted@[n - dataset_keys.len()]);
            assert(dataset_keys.contains(dataset_keys[m]));
            assert(p.resume_snap@.contains(dataset_keys[m]));
        } else if m >= dataset_keys.len() {
            assert(all[m] == p.emitted@[m - dataset_keys.len()]);
            assert(all[n] == p.emitted@[n - dataset_keys.len()]);
        }
    }
}

} // verus!
