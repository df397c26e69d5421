//! What is stored, and what each change does to it.
//!
//! Every write to the store is one of a few changes.  A list of changes is
//! applied as one transaction: all of them, or, where one is refused, none.
//! A fit is published by one such list, so that a job is never done without
//! its fit.

use vstd::prelude::*;

verus! {

/// The version of the tables.
pub const SCHEMA_VERSION: i64 = 1;

/// A job that was found or made.
pub struct JobHit {
    pub id: i64,
    pub status: String,
    pub fit_id: Option<i64>,
}

/// A data set to be stored.
pub struct Dataset {
    pub input_hash: String,
    pub x_unit: String,
    pub y_kind: String,
    pub x_header: String,
    pub y_header: String,
    pub raw_csv: String,
    pub n_points: usize,
    pub loader_version: String,
    pub diagnostics_json: String,
    pub source: String,
}

/// A scheme to be stored.
pub struct NewScheme {
    pub dataset: i64,
    pub parent: Option<i64>,
    pub spec_json: String,
    pub fingerprint: String,
    /// "manual" or "auto_candidate".
    pub origin: String,
}

/// A derived curve to be stored.
pub struct Artifact {
    /// "baseline" or "smoothed".
    pub kind: String,
    pub method_version: String,
    pub params_json: String,
    pub input_hash: String,
    pub upstream_hash: Option<String>,
    pub artifact_hash: String,
    pub x_json: String,
    pub y_json: String,
}

/// A fit to be stored.
pub struct NewFit {
    pub job: i64,
    pub report_json: String,
    pub baseline_json: String,
    pub converged: bool,
}

/// One change of the store.
pub enum Change {
    /// Adds a data set, unless one with the same content is there.
    AddDataset(Dataset),
    /// Adds a scheme.
    AddScheme(NewScheme),
    /// Takes back the acceptance of every scheme of a data set.
    ClearAccepted(i64),
    /// Sets or takes back the acceptance of a scheme.
    SetAccepted(i64, bool),
    /// Adds a queued job for a fingerprint, a data set and a scheme, unless
    /// there is one for that fingerprint.
    AddJob(String, i64, i64),
    /// Puts the jobs that were left running back into the queue.
    ResetRunning,
    /// Marks a job as done, with no fit yet.
    FinishJob(i64),
    /// Adds the fit of a job, which is not accepted.
    AddFit(NewFit),
    /// Links a job to the fit that was added last.
    LinkFit(i64),
    /// Adds a derived curve for the data set of a job, unless it is there.
    AddArtifact(i64, Artifact),
}

// ----------------------------------------------------------------------- tables

/// A stored scheme.
pub struct SchemeRow {
    pub dataset: i64,
    pub parent: Option<i64>,
    pub spec: Seq<char>,
    pub fingerprint: Seq<char>,
    pub origin: Seq<char>,
    pub accepted: bool,
}

/// A stored job.
pub struct JobRow {
    pub fingerprint: Seq<char>,
    pub dataset: i64,
    pub scheme: i64,
    pub status: Seq<char>,
    pub fit: Option<i64>,
    pub attempts: nat,
}

/// A stored fit.
pub struct FitRow {
    pub job: i64,
    pub report: Seq<char>,
    pub baseline: Seq<char>,
    pub converged: bool,
    pub accepted: bool,
}

/// A stored curve.
pub struct ArtifactRow {
    pub dataset: i64,
    pub artifact: Artifact,
}

/// All that is stored, and the row that was added last.
pub struct Tables {
    pub datasets: Map<i64, Dataset>,
    pub schemes: Map<i64, SchemeRow>,
    pub jobs: Map<i64, JobRow>,
    pub fits: Map<i64, FitRow>,
    pub artifacts: Map<Seq<char>, ArtifactRow>,
    pub last: i64,
}

impl Tables {
    /// There is a data set with the content hash `h`.
    pub open spec fn has_content(self, h: Seq<char>) -> bool {
        exists|k: i64| #[trigger] self.datasets.contains_key(k) && self.datasets[k].input_hash@ == h
    }

    /// There is a job for the fingerprint `f`.
    pub open spec fn has_job_for(self, f: Seq<char>) -> bool {
        exists|k: i64| #[trigger] self.jobs.contains_key(k) && self.jobs[k].fingerprint == f
    }

    /// Job `j` is for the fingerprint `f`, and linked to a stored fit.
    pub open spec fn answers(self, j: i64, f: Seq<char>) -> bool {
        &&& self.jobs.contains_key(j)
        &&& self.jobs[j].fingerprint == f
        &&& self.jobs[j].fit matches Some(k) && self.fits.contains_key(k)
    }

    /// The stored report for the fingerprint `f`.
    pub open spec fn report_for(self, f: Seq<char>) -> Option<Seq<char>> {
        if exists|j: i64| #[trigger] self.answers(j, f) {
            let j = choose|j: i64| #[trigger] self.answers(j, f);
            Some(self.fits[self.jobs[j].fit->0].report)
        } else {
            None
        }
    }

    /// Whether the stored fit for the fingerprint `f` converged.
    pub open spec fn convergence_for(self, f: Seq<char>) -> Option<bool> {
        if exists|j: i64| #[trigger] self.answers(j, f) {
            let j = choose|j: i64| #[trigger] self.answers(j, f);
            Some(self.fits[self.jobs[j].fit->0].converged)
        } else {
            None
        }
    }

    /// There is a fit of job `j`.
    pub open spec fn has_fit_of(self, j: i64) -> bool {
        exists|k: i64| #[trigger] self.fits.contains_key(k) && self.fits[k].job == j
    }
}

/// The row of a new fit.  It is not accepted.
pub open spec fn fit_row(n: NewFit) -> FitRow {
    FitRow {
        job: n.job,
        report: n.report_json@,
        baseline: n.baseline_json@,
        converged: n.converged,
        accepted: false,
    }
}

/// What a change makes of the store, where `id` is the number that a new row
/// gets.  None where the change is refused.
pub open spec fn effect(t: Tables, c: Change, id: i64) -> Option<Tables> {
    match c {
        Change::AddDataset(d) => if t.has_content(d.input_hash@) {
            Some(t)
        } else {
            Some(Tables { datasets: t.datasets.insert(id, d), last: id, ..t })
        },
        Change::AddScheme(n) => if t.datasets.contains_key(n.dataset) && (n.parent matches Some(p)
            ==> t.schemes.contains_key(p)) {
            let row = SchemeRow {
                dataset: n.dataset,
                parent: n.parent,
                spec: n.spec_json@,
                fingerprint: n.fingerprint@,
                origin: n.origin@,
                accepted: false,
            };
            Some(Tables { schemes: t.schemes.insert(id, row), last: id, ..t })
        } else {
            None
        },
        Change::ClearAccepted(ds) => Some(
            Tables {
                schemes: t.schemes.map_values(
                    |r: SchemeRow|
                        if r.dataset == ds {
                            SchemeRow { accepted: false, ..r }
                        } else {
                            r
                        },
                ),
                ..t
            },
        ),
        Change::SetAccepted(k, a) => if t.schemes.contains_key(k) {
            Some(
                Tables {
                    schemes: t.schemes.insert(k, SchemeRow { accepted: a, ..t.schemes[k] }),
                    ..t
                },
            )
        } else {
            Some(t)
        },
        Change::AddJob(f, ds, scheme) => if t.has_job_for(f@) {
            Some(t)
        } else {
            let row = JobRow {
                fingerprint: f@,
                dataset: ds,
                scheme,
                status: "queued"@,
                fit: None,
                attempts: 0,
            };
            Some(Tables { jobs: t.jobs.insert(id, row), last: id, ..t })
        },
        Change::ResetRunning => Some(
            Tables {
                jobs: t.jobs.map_values(
                    |r: JobRow|
                        if r.status == "running"@ {
                            JobRow { status: "queued"@, attempts: r.attempts + 1, ..r }
                        } else {
                            r
                        },
                ),
                ..t
            },
        ),
        Change::FinishJob(j) => if t.jobs.contains_key(j) {
            Some(
                Tables {
                    jobs: t.jobs.insert(j, JobRow { status: "done"@, fit: None, ..t.jobs[j] }),
                    ..t
                },
            )
        } else {
            Some(t)
        },
        Change::AddFit(n) => if t.jobs.contains_key(n.job) && !t.has_fit_of(n.job) {
            Some(Tables { fits: t.fits.insert(id, fit_row(n)), last: id, ..t })
        } else {
            None
        },
        Change::LinkFit(j) => if t.jobs.contains_key(j) {
            Some(
                Tables { jobs: t.jobs.insert(j, JobRow { fit: Some(t.last), ..t.jobs[j] }), ..t },
            )
        } else {
            Some(t)
        },
        Change::AddArtifact(j, a) => if !t.jobs.contains_key(j) || t.artifacts.contains_key(
            a.artifact_hash@,
        ) {
            Some(t)
        } else if t.datasets.contains_key(t.jobs[j].dataset) {
            Some(
                Tables {
                    artifacts: t.artifacts.insert(
                        a.artifact_hash@,
                        ArtifactRow { dataset: t.jobs[j].dataset, artifact: a },
                    ),
                    ..t
                },
            )
        } else {
            None
        },
    }
}

/// What the first `k` of a list of changes make of the store, where new rows
/// get the numbers `ids`.  None where one of them is refused.
pub open spec fn effects(t: Tables, cs: Seq<Change>, ids: Seq<i64>, k: int) -> Option<Tables>
    decreases k,
{
    if k <= 0 {
        Some(t)
    } else {
        match effects(t, cs, ids, k - 1) {
            None => None,
            Some(u) => effect(u, cs[k - 1], ids[k - 1]),
        }
    }
}

/// What a transaction makes of the store: the effects of all its changes, or
/// nothing.
pub open spec fn committed(t: Tables, cs: Seq<Change>, ids: Seq<i64>) -> Tables {
    match effects(t, cs, ids, cs.len() as int) {
        Some(u) => u,
        None => t,
    }
}

// ------------------------------------------------------------------ transactions

/// The changes that set or take back the acceptance of a scheme.
pub open spec fn acceptance(dataset: i64, scheme: i64, accepted: bool) -> Seq<Change> {
    seq![Change::ClearAccepted(dataset), Change::SetAccepted(scheme, accepted)]
}

/// The transaction that sets or takes back the acceptance of a scheme.  Only
/// one scheme of a data set is accepted.
pub fn set_scheme_accepted(dataset: i64, scheme: i64, accepted: bool) -> (r: Vec<Change>)
    ensures
        r@ == acceptance(dataset, scheme, accepted),
{
    let mut r: Vec<Change> = Vec::new();
    r.push(Change::ClearAccepted(dataset));
    r.push(Change::SetAccepted(scheme, accepted));
    r
}

/// The changes that publish the fit of a job with its curves.
pub open spec fn publication(fit: NewFit, artifacts: Seq<Artifact>) -> Seq<Change> {
    seq![Change::FinishJob(fit.job), Change::AddFit(fit), Change::LinkFit(fit.job)]
        + artifacts.map_values(|a: Artifact| Change::AddArtifact(fit.job, a))
}

/// The transaction that publishes the fit of a job with its curves.
pub fn publish_fit(fit: NewFit, artifacts: Vec<Artifact>) -> (r: Vec<Change>)
    ensures
        r@ == publication(fit, artifacts@),
{
    let job: i64 = fit.job;
    let ghost head = seq![Change::FinishJob(fit.job), Change::AddFit(fit), Change::LinkFit(fit.job)];
    let ghost tail = artifacts@.map_values(|a: Artifact| Change::AddArtifact(fit.job, a));
    let ghost given = artifacts@;
    let mut r: Vec<Change> = Vec::new();
    r.push(Change::FinishJob(job));
    r.push(Change::AddFit(fit));
    r.push(Change::LinkFit(job));
    assert(r@ =~= head + tail.take(0));
    let mut rest: Vec<Artifact> = artifacts;
    let ghost mut done: int = 0;
    while rest.len() > 0
        invariant
            0 <= done <= given.len(),
            rest@ == given.skip(done),
            job == fit.job,
            tail == given.map_values(|a: Artifact| Change::AddArtifact(fit.job, a)),
            r@ == head + tail.take(done),
        decreases rest@.len(),
    {
        let a: Artifact = rest.remove(0);
        r.push(Change::AddArtifact(job, a));
        proof {
            assert(a == given[done]);
            assert(tail.take(done + 1) =~= tail.take(done).push(tail[done]));
            assert(given.skip(done).remove(0) =~= given.skip(done + 1));
            done = done + 1;
        }
    }
    assert(tail.take(given.len() as int) =~= tail);
    r
}

} // verus!
