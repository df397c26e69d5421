//! Laws of the store.

use crate::acceptance::{granted, Wish};
use crate::db::{
    acceptance, committed, effect, effects, fit_row, publication, Artifact, ArtifactRow, Change,
    Dataset, JobRow, NewFit, SchemeRow, Tables,
};
use vstd::prelude::*;

verus! {

/// The number `id` is free for the row that a change adds.
pub open spec fn fresh(t: Tables, c: Change, id: i64) -> bool {
    match c {
        Change::AddDataset(_) => !t.datasets.contains_key(id),
        Change::AddScheme(_) => !t.schemes.contains_key(id),
        Change::AddJob(_, _, _) => !t.jobs.contains_key(id),
        Change::AddFit(_) => !t.fits.contains_key(id),
        _ => true,
    }
}

/// All that was stored in `t` is in `u` as it was; only the acceptance of a
/// scheme and the progress of a job may have changed.
pub open spec fn kept_in(t: Tables, u: Tables) -> bool {
    &&& forall|k: i64| #[trigger]
        t.datasets.contains_key(k) ==> u.datasets.contains_key(k) && u.datasets[k] == t.datasets[k]
    &&& forall|k: i64| #[trigger]
        t.schemes.contains_key(k) ==> u.schemes.contains_key(k) && u.schemes[k] == (SchemeRow {
            accepted: u.schemes[k].accepted,
            ..t.schemes[k]
        })
    &&& forall|k: i64| #[trigger]
        t.jobs.contains_key(k) ==> u.jobs.contains_key(k) && u.jobs[k] == (JobRow {
            status: u.jobs[k].status,
            fit: u.jobs[k].fit,
            attempts: u.jobs[k].attempts,
            ..t.jobs[k]
        })
    &&& forall|k: i64| #[trigger]
        t.fits.contains_key(k) ==> u.fits.contains_key(k) && u.fits[k] == t.fits[k]
    &&& forall|h: Seq<char>| #[trigger]
        t.artifacts.contains_key(h) ==> u.artifacts.contains_key(h) && u.artifacts[h]
            == t.artifacts[h]
}

/// No change overwrites raw data, a scheme, a published fit or a derived
/// curve.
pub proof fn law_history_is_kept(t: Tables, c: Change, id: i64)
    requires
        fresh(t, c, id),
    ensures
        effect(t, c, id) matches Some(u) ==> kept_in(t, u),
{
}

/// A scheme becomes accepted by an explicit acceptance of it alone: not by
/// being added, and not by the publication of a fit.
pub proof fn law_only_acceptance_accepts(t: Tables, c: Change, id: i64, k: i64)
    requires
        fresh(t, c, id),
        c != Change::SetAccepted(k, true),
    ensures
        effect(t, c, id) matches Some(u) ==> (u.schemes.contains_key(k) && u.schemes[k].accepted
            ==> t.schemes.contains_key(k) && t.schemes[k].accepted),
{
}

/// At most one scheme of a data set is accepted.
pub open spec fn one_accepted(t: Tables) -> bool {
    forall|i: i64, j: i64|
        #![trigger t.schemes.contains_key(i), t.schemes.contains_key(j)]
        t.schemes.contains_key(i) && t.schemes.contains_key(j) && t.schemes[i].accepted
            && t.schemes[j].accepted && t.schemes[i].dataset == t.schemes[j].dataset ==> i == j
}

/// The transaction of an acceptance succeeds, gives the scheme the acceptance
/// that was asked for, and leaves at most one accepted scheme of each data set;
/// schemes of other data sets are as they were.
pub proof fn law_one_scheme_accepted(
    t: Tables,
    dataset: i64,
    scheme: i64,
    accepted: bool,
    ids: Seq<i64>,
)
    requires
        one_accepted(t),
        t.schemes.contains_key(scheme),
        t.schemes[scheme].dataset == dataset,
    ensures
        ({
            let u = committed(t, acceptance(dataset, scheme, accepted), ids);
            &&& effects(t, acceptance(dataset, scheme, accepted), ids, 2) == Some(u)
            &&& one_accepted(u)
            &&& u.schemes.contains_key(scheme)
            &&& u.schemes[scheme].accepted == accepted
            &&& forall|k: i64| #[trigger]
                t.schemes.contains_key(k) && t.schemes[k].dataset != dataset
                    ==> u.schemes.contains_key(k) && u.schemes[k] == t.schemes[k]
        }),
{
    reveal_with_fuel(effects, 3);
    let cs = acceptance(dataset, scheme, accepted);
    assert(cs[0] == Change::ClearAccepted(dataset));
    assert(cs[1] == Change::SetAccepted(scheme, accepted));
}

/// Any change but an acceptance leaves at most one accepted scheme of each data
/// set.
pub proof fn law_other_changes_keep_one_accepted(t: Tables, c: Change, id: i64)
    requires
        one_accepted(t),
        fresh(t, c, id),
        !(c is SetAccepted),
    ensures
        effect(t, c, id) matches Some(u) ==> one_accepted(u),
{
}

/// There is at most one job for a fingerprint.
pub open spec fn one_job_each(t: Tables) -> bool {
    forall|i: i64, j: i64|
        #![trigger t.jobs.contains_key(i), t.jobs.contains_key(j)]
        t.jobs.contains_key(i) && t.jobs.contains_key(j) && t.jobs[i].fingerprint
            == t.jobs[j].fingerprint ==> i == j
}

/// Every change leaves at most one job for a fingerprint.
pub proof fn law_jobs_are_unique(t: Tables, c: Change, id: i64)
    requires
        one_job_each(t),
        fresh(t, c, id),
    ensures
        effect(t, c, id) matches Some(u) ==> one_job_each(u),
{
}

/// After a job has been asked for there is one for the fingerprint, and asking
/// again, for whichever data set and scheme, changes nothing: the first row
/// stays.
pub proof fn law_claim_is_idempotent(
    t: Tables,
    first: String,
    dataset: i64,
    scheme: i64,
    id: i64,
    second: String,
    other_dataset: i64,
    other_scheme: i64,
    again: i64,
)
    requires
        first@ == second@,
    ensures
        effect(t, Change::AddJob(first, dataset, scheme), id) matches Some(u) && {
            &&& u.has_job_for(first@)
            &&& t.has_job_for(first@) ==> u == t
            &&& !t.has_job_for(first@) ==> u.jobs == t.jobs.insert(
                id,
                JobRow {
                    fingerprint: first@,
                    dataset,
                    scheme,
                    status: "queued"@,
                    fit: None,
                    attempts: 0,
                },
            )
            &&& effect(u, Change::AddJob(second, other_dataset, other_scheme), again) == Some(u)
        },
{
    let u = effect(t, Change::AddJob(first, dataset, scheme), id)->0;
    if !t.has_job_for(first@) {
        assert(u.jobs.contains_key(id) && u.jobs[id].fingerprint == first@);
    }
}

/// Every job that is done has a fit of its own.
pub open spec fn done_have_fits(t: Tables) -> bool {
    forall|j: i64| #[trigger]
        t.jobs.contains_key(j) && t.jobs[j].status == "done"@ ==> {
            &&& t.jobs[j].fit matches Some(f)
            &&& t.fits.contains_key(f)
            &&& t.fits[f].job == j
        }
}

/// No change of a transaction is refused.
pub open spec fn goes_through(t: Tables, cs: Seq<Change>, ids: Seq<i64>) -> bool {
    effects(t, cs, ids, cs.len() as int) is Some
}

/// One of the curves has the hash `h`.
pub open spec fn offered(artifacts: Seq<Artifact>, h: Seq<char>, k: int) -> bool {
    0 <= k < artifacts.len() && artifacts[k].artifact_hash@ == h
}

/// What the first `k` curves of a publication make of the curves `v` that were
/// stored before.
spec fn curves_added(
    v: Map<Seq<char>, ArtifactRow>,
    w: Map<Seq<char>, ArtifactRow>,
    artifacts: Seq<Artifact>,
    dataset: i64,
    k: int,
) -> bool {
    &&& forall|i: int| 0 <= i < k ==> w.contains_key((#[trigger] artifacts[i]).artifact_hash@)
    &&& forall|h: Seq<char>| #[trigger] v.contains_key(h) ==> w.contains_key(h) && w[h] == v[h]
    &&& forall|h: Seq<char>| #[trigger]
        w.contains_key(h) && !v.contains_key(h) ==> exists|i: int| #[trigger]
            offered(artifacts, h, i) && i < k && w[h] == (ArtifactRow {
                dataset,
                artifact: artifacts[i],
            })
}

proof fn lemma_artifacts(
    t: Tables,
    fit: NewFit,
    artifacts: Seq<Artifact>,
    ids: Seq<i64>,
    v: Tables,
    k: int,
)
    requires
        0 <= k <= artifacts.len(),
        effects(t, publication(fit, artifacts), ids, 3) == Some(v),
        v.jobs.contains_key(fit.job),
    ensures
        v.datasets.contains_key(v.jobs[fit.job].dataset) ==> effects(
            t,
            publication(fit, artifacts),
            ids,
            3 + k,
        ) is Some,
        effects(t, publication(fit, artifacts), ids, 3 + k) matches Some(w) ==> {
            &&& w.jobs == v.jobs
            &&& w.fits == v.fits
            &&& w.schemes == v.schemes
            &&& w.datasets == v.datasets
            &&& curves_added(
                v.artifacts,
                w.artifacts,
                artifacts,
                v.jobs[fit.job].dataset,
                k,
            )
        },
    decreases k,
{
    let cs = publication(fit, artifacts);
    let ds = v.jobs[fit.job].dataset;
    if k > 0 {
        lemma_artifacts(t, fit, artifacts, ids, v, k - 1);
        let a = artifacts[k - 1];
        assert(cs[3 + k - 1] == Change::AddArtifact(fit.job, a)) by {
            assert(artifacts.map_values(|a: Artifact| Change::AddArtifact(fit.job, a))[k - 1]
                == Change::AddArtifact(fit.job, a));
        }
        if let Some(w) = effects(t, cs, ids, 3 + k) {
            let z = effects(t, cs, ids, 3 + k - 1)->0;
            assert forall|i: int| 0 <= i < k implies w.artifacts.contains_key(
                (#[trigger] artifacts[i]).artifact_hash@,
            ) by {
                if i < k - 1 {
                    assert(z.artifacts.contains_key(artifacts[i].artifact_hash@));
                }
            }
            assert forall|h: Seq<char>| #[trigger]
                w.artifacts.contains_key(h) && !v.artifacts.contains_key(h) implies exists|i: int|
             #[trigger]
                offered(artifacts, h, i) && i < k && w.artifacts[h] == (ArtifactRow {
                    dataset: ds,
                    artifact: artifacts[i],
                }) by {
                if z.artifacts.contains_key(h) {
                    let i = choose|i: int| #[trigger]
                        offered(artifacts, h, i) && i < k - 1 && z.artifacts[h] == (ArtifactRow {
                            dataset: ds,
                            artifact: artifacts[i],
                        });
                    assert(offered(artifacts, h, i));
                } else {
                    assert(offered(artifacts, h, k - 1));
                }
            }
        }
    }
}

/// The publication of a fit is all or nothing.
///
/// It goes through where the job is known and has no fit yet, and its data set
/// is known; for an unknown job, and for one that has a fit, it does not.  Where
/// it goes through, the job is done and linked to the new fit, which is not
/// accepted; every curve is stored, new ones for the data set of the job; stored
/// curves, other jobs and fits, all schemes and all data sets are as they were.
/// Where it does not, nothing has changed.
pub proof fn law_publication_is_atomic(
    t: Tables,
    fit: NewFit,
    artifacts: Seq<Artifact>,
    ids: Seq<i64>,
)
    ensures
        ({
            let cs = publication(fit, artifacts);
            let u = committed(t, cs, ids);
            &&& !goes_through(t, cs, ids) ==> u == t
            &&& !t.jobs.contains_key(fit.job) || t.has_fit_of(fit.job) ==> !goes_through(
                t,
                cs,
                ids,
            )
            &&& t.jobs.contains_key(fit.job) && !t.has_fit_of(fit.job) && t.datasets.contains_key(
                t.jobs[fit.job].dataset,
            ) ==> goes_through(t, cs, ids)
            &&& goes_through(t, cs, ids) ==> {
                &&& u.jobs == t.jobs.insert(
                    fit.job,
                    JobRow { status: "done"@, fit: Some(ids[1]), ..t.jobs[fit.job] },
                )
                &&& u.fits == t.fits.insert(ids[1], fit_row(fit))
                &&& !u.fits[ids[1]].accepted
                &&& u.schemes == t.schemes
                &&& u.datasets == t.datasets
                &&& forall|i: int|
                    0 <= i < artifacts.len() ==> u.artifacts.contains_key(
                        (#[trigger] artifacts[i]).artifact_hash@,
                    )
                &&& forall|h: Seq<char>| #[trigger]
                    t.artifacts.contains_key(h) ==> u.artifacts.contains_key(h) && u.artifacts[h]
                        == t.artifacts[h]
                &&& forall|h: Seq<char>| #[trigger]
                    u.artifacts.contains_key(h) && !t.artifacts.contains_key(h) ==> exists|i: int|
                     #[trigger]
                        offered(artifacts, h, i) && u.artifacts[h] == (ArtifactRow {
                            dataset: t.jobs[fit.job].dataset,
                            artifact: artifacts[i],
                        })
            }
        }),
{
    reveal_with_fuel(effects, 4);
    let cs = publication(fit, artifacts);
    assert(cs[0] == Change::FinishJob(fit.job));
    assert(cs[1] == Change::AddFit(fit));
    assert(cs[2] == Change::LinkFit(fit.job));
    let w = effects(t, cs, ids, 1)->0;
    assert(effects(t, cs, ids, 1) == Some(w));
    assert(w.fits == t.fits);
    if t.has_fit_of(fit.job) {
        let k = choose|k: i64| #[trigger] t.fits.contains_key(k) && t.fits[k].job == fit.job;
        assert(w.fits.contains_key(k) && w.fits[k].job == fit.job);
        assert(w.has_fit_of(fit.job));
    } else if w.has_fit_of(fit.job) {
        let k = choose|k: i64| #[trigger] w.fits.contains_key(k) && w.fits[k].job == fit.job;
        assert(t.fits.contains_key(k) && t.fits[k].job == fit.job);
    }
    if t.jobs.contains_key(fit.job) && !t.has_fit_of(fit.job) {
        let v = effects(t, cs, ids, 3)->0;
        assert(effects(t, cs, ids, 3) == Some(v));
        assert(v.jobs =~= t.jobs.insert(
            fit.job,
            JobRow { status: "done"@, fit: Some(ids[1]), ..t.jobs[fit.job] },
        ));
        assert(cs.len() == 3 + artifacts.len());
        lemma_artifacts(t, fit, artifacts, ids, v, artifacts.len() as int);
    } else {
        assert(effects(t, cs, ids, 2) is None);
        lemma_refused(t, cs, ids, 2, cs.len() as int);
    }
}

proof fn lemma_refused(t: Tables, cs: Seq<Change>, ids: Seq<i64>, a: int, b: int)
    requires
        a <= b,
        effects(t, cs, ids, a) is None,
    ensures
        effects(t, cs, ids, b) is None,
    decreases b - a,
{
    if a < b {
        lemma_refused(t, cs, ids, a, b - 1);
        if b <= 0 {
            assert(effects(t, cs, ids, a) is Some);
        }
    }
}

/// Putting jobs back into the queue leaves none running, takes no job back that
/// is done, and counts one attempt more for each that was running.
pub proof fn law_reset_requeues(t: Tables, id: i64, j: i64)
    requires
        t.jobs.contains_key(j),
    ensures
        ({
            let u = effect(t, Change::ResetRunning, id)->0;
            &&& effect(t, Change::ResetRunning, id) is Some
            &&& u.jobs.contains_key(j)
            &&& u.jobs[j].status != "running"@
            &&& t.jobs[j].status == "running"@ ==> u.jobs[j] == (JobRow {
                status: "queued"@,
                attempts: t.jobs[j].attempts + 1,
                ..t.jobs[j]
            })
            &&& t.jobs[j].status != "running"@ ==> u.jobs[j] == t.jobs[j]
        }),
{
    reveal_strlit("running");
    reveal_strlit("queued");
    assert("queued"@.len() != "running"@.len());
}

// ------------------------------------------------------------- reading and writing

/// A data set that is stored is there, under the hash of its content, and an
/// earlier one with the same content stays as it is.
pub proof fn law_dataset_is_stored_once(t: Tables, d: Dataset, id: i64)
    requires
        !t.datasets.contains_key(id),
    ensures
        effect(t, Change::AddDataset(d), id) matches Some(u) && {
            &&& u.has_content(d.input_hash@)
            &&& t.has_content(d.input_hash@) ==> u == t
            &&& !t.has_content(d.input_hash@) ==> u.datasets == t.datasets.insert(id, d)
        },
{
    let u = effect(t, Change::AddDataset(d), id)->0;
    if !t.has_content(d.input_hash@) {
        assert(u.datasets.contains_key(id) && u.datasets[id].input_hash@ == d.input_hash@);
    }
}

/// Where there is one job for a fingerprint, it alone answers.
proof fn lemma_report(t: Tables, j: i64)
    requires
        one_job_each(t),
        t.jobs.contains_key(j),
    ensures
        t.report_for(t.jobs[j].fingerprint) == (match t.jobs[j].fit {
            Some(k) if t.fits.contains_key(k) => Some(t.fits[k].report),
            _ => None,
        }),
{
    let f = t.jobs[j].fingerprint;
    if t.jobs[j].fit matches Some(k) && t.fits.contains_key(k) {
        assert(t.answers(j, f));
    }
    if exists|i: i64| #[trigger] t.answers(i, f) {
        let i = choose|i: i64| #[trigger] t.answers(i, f);
        assert(t.jobs.contains_key(i));
        assert(i == j);
    }
}

/// A fit that was published is found by its fingerprint: what is replayed is
/// the report that was published.
pub proof fn law_published_fit_is_found(
    t: Tables,
    fit: NewFit,
    artifacts: Seq<Artifact>,
    ids: Seq<i64>,
)
    requires
        one_job_each(t),
        goes_through(t, publication(fit, artifacts), ids),
    ensures
        committed(t, publication(fit, artifacts), ids).report_for(t.jobs[fit.job].fingerprint)
            == Some(fit.report_json@),
{
    let u = committed(t, publication(fit, artifacts), ids);
    law_publication_is_atomic(t, fit, artifacts, ids);
    let row = JobRow { status: "done"@, fit: Some(ids[1]), ..t.jobs[fit.job] };
    assert(u.jobs == t.jobs.insert(fit.job, row));
    assert(one_job_each(u)) by {
        assert forall|i: i64, j: i64|
            #![trigger u.jobs.contains_key(i), u.jobs.contains_key(j)]
            u.jobs.contains_key(i) && u.jobs.contains_key(j) && u.jobs[i].fingerprint
                == u.jobs[j].fingerprint implies i == j by {
            assert(t.jobs.contains_key(i) && t.jobs.contains_key(j));
        }
    }
    lemma_report(u, fit.job);
}

/// The fits that jobs are linked to are their own.
pub open spec fn links_are_own(t: Tables) -> bool {
    forall|j: i64| #[trigger]
        t.jobs.contains_key(j) && t.jobs[j].fit is Some ==> t.fits.contains_key(t.jobs[j].fit->0)
            && t.fits[t.jobs[j].fit->0].job == j
}

/// A report that was found for a fingerprint is found after every publication,
/// whatever is published.
pub proof fn law_found_fit_survives_publication(
    t: Tables,
    fit: NewFit,
    artifacts: Seq<Artifact>,
    ids: Seq<i64>,
    f: Seq<char>,
)
    requires
        one_job_each(t),
        links_are_own(t),
        !t.fits.contains_key(ids[1]),
        t.report_for(f) is Some,
    ensures
        committed(t, publication(fit, artifacts), ids).report_for(f) == t.report_for(f),
{
    let cs = publication(fit, artifacts);
    let j = choose|j: i64| #[trigger] t.answers(j, f);
    if effects(t, cs, ids, cs.len() as int) is Some {
        let u = committed(t, cs, ids);
        law_publication_is_atomic(t, fit, artifacts, ids);
        assert(t.jobs.contains_key(j));
        if j == fit.job {
            let k = t.jobs[j].fit->0;
            assert(t.fits.contains_key(k) && t.fits[k].job == j);
        }
        assert(one_job_each(u)) by {
            assert forall|a: i64, b: i64|
                #![trigger u.jobs.contains_key(a), u.jobs.contains_key(b)]
                u.jobs.contains_key(a) && u.jobs.contains_key(b) && u.jobs[a].fingerprint
                    == u.jobs[b].fingerprint implies a == b by {
                assert(t.jobs.contains_key(a) && t.jobs.contains_key(b));
            }
        }
        lemma_report(t, j);
        lemma_report(u, j);
    }
}

/// A report that was found for a fingerprint is found after every change that
/// no publication makes: new data sets, schemes and jobs, acceptances, and jobs
/// that go back into the queue.
pub proof fn law_found_fit_survives_other_changes(t: Tables, c: Change, id: i64, f: Seq<char>)
    requires
        one_job_each(t),
        fresh(t, c, id),
        c is AddDataset || c is AddScheme || c is ClearAccepted || c is SetAccepted || c is AddJob
            || c is ResetRunning,
        t.report_for(f) is Some,
    ensures
        effect(t, c, id) matches Some(u) ==> u.report_for(f) == t.report_for(f),
{
    if let Some(u) = effect(t, c, id) {
        let j = choose|j: i64| #[trigger] t.answers(j, f);
        law_jobs_are_unique(t, c, id);
        assert(t.jobs.contains_key(j));
        assert(u.jobs.contains_key(j));
        lemma_report(t, j);
        lemma_report(u, j);
    }
}

// ------------------------------------------------------------------ the whole store

/// What holds of the store at any time: one accepted scheme of each data set at
/// most, one job for each fingerprint at most, every job that is done has a fit,
/// and jobs are linked to fits of their own.
pub open spec fn sound(t: Tables) -> bool {
    &&& one_accepted(t)
    &&& one_job_each(t)
    &&& done_have_fits(t)
    &&& links_are_own(t)
}

/// An empty store is sound.
pub proof fn law_empty_store_is_sound(t: Tables)
    requires
        t.schemes == Map::<i64, SchemeRow>::empty(),
        t.jobs == Map::<i64, JobRow>::empty(),
    ensures
        sound(t),
{
}

/// The transaction of an acceptance keeps the store sound.
pub proof fn law_acceptance_keeps_soundness(
    t: Tables,
    dataset: i64,
    scheme: i64,
    accepted: bool,
    ids: Seq<i64>,
)
    requires
        sound(t),
        t.schemes.contains_key(scheme),
        t.schemes[scheme].dataset == dataset,
    ensures
        sound(committed(t, acceptance(dataset, scheme, accepted), ids)),
{
    law_one_scheme_accepted(t, dataset, scheme, accepted, ids);
    reveal_with_fuel(effects, 3);
    let cs = acceptance(dataset, scheme, accepted);
    assert(cs[0] == Change::ClearAccepted(dataset));
    assert(cs[1] == Change::SetAccepted(scheme, accepted));
    let u = committed(t, cs, ids);
    assert(u.jobs == t.jobs && u.fits == t.fits);
}

/// The transaction of a publication keeps the store sound.
pub proof fn law_publication_keeps_soundness(
    t: Tables,
    fit: NewFit,
    artifacts: Seq<Artifact>,
    ids: Seq<i64>,
)
    requires
        sound(t),
        !t.fits.contains_key(ids[1]),
    ensures
        sound(committed(t, publication(fit, artifacts), ids)),
{
    let cs = publication(fit, artifacts);
    let u = committed(t, cs, ids);
    law_publication_is_atomic(t, fit, artifacts, ids);
    if effects(t, cs, ids, cs.len() as int) is Some {
        assert forall|j: i64| #[trigger]
            u.jobs.contains_key(j) && u.jobs[j].status == "done"@ implies {
            &&& u.jobs[j].fit matches Some(f)
            &&& u.fits.contains_key(f)
            &&& u.fits[f].job == j
        } by {
            if j != fit.job {
                assert(t.jobs.contains_key(j));
            }
        }
        assert forall|i: i64, j: i64|
            #![trigger u.jobs.contains_key(i), u.jobs.contains_key(j)]
            u.jobs.contains_key(i) && u.jobs.contains_key(j) && u.jobs[i].fingerprint
                == u.jobs[j].fingerprint implies i == j by {
            assert(t.jobs.contains_key(i) && t.jobs.contains_key(j));
        }
        assert forall|j: i64| #[trigger]
            u.jobs.contains_key(j) && u.jobs[j].fit is Some implies u.fits.contains_key(
            u.jobs[j].fit->0,
        ) && u.fits[u.jobs[j].fit->0].job == j by {
            assert(t.jobs.contains_key(j));
        }
    }
}

/// New data sets, schemes and jobs, and jobs that go back into the queue, keep
/// the store sound.
pub proof fn law_additions_keep_soundness(t: Tables, c: Change, id: i64)
    requires
        sound(t),
        fresh(t, c, id),
        c is AddDataset || c is AddScheme || c is AddJob || c is ResetRunning,
    ensures
        effect(t, c, id) matches Some(u) ==> sound(u),
{
    reveal_strlit("queued");
    reveal_strlit("done");
    assert("queued"@.len() != "done"@.len());
    law_jobs_are_unique(t, c, id);
    law_other_changes_keep_one_accepted(t, c, id);
    if let Some(u) = effect(t, c, id) {
        assert forall|j: i64| #[trigger]
            u.jobs.contains_key(j) && u.jobs[j].fit is Some implies u.fits.contains_key(
            u.jobs[j].fit->0,
        ) && u.fits[u.jobs[j].fit->0].job == j by {
            assert(t.jobs.contains_key(j));
        }
        assert forall|j: i64| #[trigger]
            u.jobs.contains_key(j) && u.jobs[j].status == "done"@ implies {
            &&& u.jobs[j].fit matches Some(f)
            &&& u.fits.contains_key(f)
            &&& u.fits[f].job == j
        } by {
            assert(t.jobs.contains_key(j) && t.jobs[j].status == "done"@);
        }
    }
}

// -------------------------------------------------------------------- acceptance

/// What is accepted was wanted, and is fit for it: where a wish is granted by
/// what the store says of the scheme, and its changes are made, the scheme has
/// the acceptance that was wanted; an automatic candidate that is accepted was
/// confirmed, and no accepted scheme has a fit that did not converge.
pub proof fn law_granted_wishes(t: Tables, w: Wish, ids: Seq<i64>)
    requires
        sound(t),
        t.schemes.contains_key(w.scheme),
        granted(
            w,
            Some(t.schemes[w.scheme].origin),
            t.convergence_for(t.schemes[w.scheme].fingerprint),
        ),
    ensures
        ({
            let ds = t.schemes[w.scheme].dataset;
            let u = committed(t, acceptance(ds, w.scheme, w.accepted), ids);
            &&& u.schemes.contains_key(w.scheme)
            &&& u.schemes[w.scheme].accepted == w.accepted
            &&& w.accepted && u.schemes[w.scheme].origin == "auto_candidate"@ ==> w.confirmed
            &&& w.accepted ==> u.convergence_for(u.schemes[w.scheme].fingerprint) != Some(false)
        }),
{
    let ds = t.schemes[w.scheme].dataset;
    law_one_scheme_accepted(t, ds, w.scheme, w.accepted, ids);
    reveal_with_fuel(effects, 3);
    let cs = acceptance(ds, w.scheme, w.accepted);
    assert(cs[0] == Change::ClearAccepted(ds));
    assert(cs[1] == Change::SetAccepted(w.scheme, w.accepted));
    let u = committed(t, cs, ids);
    let f = t.schemes[w.scheme].fingerprint;
    assert(u.jobs == t.jobs && u.fits == t.fits);
    assert(u.schemes[w.scheme].fingerprint == f);
    assert(u.schemes[w.scheme].origin == t.schemes[w.scheme].origin);
    assert forall|j: i64| #[trigger] u.answers(j, f) == t.answers(j, f) by {}
    if exists|j: i64| #[trigger] u.answers(j, f) {
        let j = choose|j: i64| #[trigger] u.answers(j, f);
        let i = choose|i: i64| #[trigger] t.answers(i, f);
        assert(t.answers(j, f));
        assert(t.jobs.contains_key(i) && t.jobs.contains_key(j));
        assert(i == j);
    }
}

/// Which wishes are granted.  A withdrawal always is.  An acceptance is unless the
/// fit did not converge, or the scheme is an automatic candidate and that was not
/// confirmed.
pub proof fn law_which_wishes_are_granted(
    w: Wish,
    origin: Option<Seq<char>>,
    converged: Option<bool>,
)
    ensures
        !w.accepted ==> granted(w, origin, converged),
        w.accepted ==> (granted(w, origin, converged) <==> converged != Some(false) && (w.confirmed
            || origin != Some("auto_candidate"@))),
{
}

} // verus!
