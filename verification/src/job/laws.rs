//! What holds of Jobs whatever happens to them.
use crate::ids::SessionId;
use crate::job::manager::{
    can_retry, cancelled, dispatched, is_busy, is_ready, job_ids, job_logged, job_of, job_restored,
    job_slot, logged, next_ready, record_of, restored, sound, with_worker, without,
    worker_sessions, Dispatch, JobsView,
};
use crate::job::model::{over, under_way, JobEventView, JobStatus, JobView};
use crate::seqs::{lemma_slot, slot_of};
use vstd::prelude::*;

verus! {

/// Every event of a Job takes the next place in its log, and the Job knows the
/// last one; the places are only held where they can grow no more.
pub proof fn every_record_takes_the_next_place(job: JobView, event: JobEventView, now: i128)
    ensures
        job.last_sequence < u64::MAX ==> record_of(job, event, now).sequence == job.last_sequence
            + 1,
        record_of(job, event, now).sequence >= job.last_sequence,
        job_logged(job, now).last_sequence == record_of(job, event, now).sequence,
        job_logged(job, now).updated_at == record_of(job, event, now).timestamp,
{
}

/// What happens to one Job leaves every other as it is, and no Job is lost or
/// added.
pub proof fn other_jobs_are_left_alone(
    s: JobsView,
    job: JobView,
    event: JobEventView,
    now: i128,
    other: u128,
)
    requires
        sound(s),
        job_of(s, job.job_id) is Some,
    ensures
        sound(logged(s, job, event, now)),
        job_ids(logged(s, job, event, now).jobs) == job_ids(s.jobs),
        job_of(logged(s, job, event, now), job.job_id) == Some(job_logged(job, now)),
        other != job.job_id ==> job_of(logged(s, job, event, now), other) == job_of(s, other),
{
    let ids = job_ids(s.jobs);
    let after = logged(s, job, event, now);
    lemma_slot(ids, job.job_id);
    lemma_slot(ids, other);
    assert(job_ids(after.jobs) =~= ids);
}

/// A Job that is given to a Worker goes to one that is free, and a Worker that
/// has to go is free too.
pub proof fn only_free_workers_are_used(old: JobsView, new: JobsView, d: Dispatch)
    requires
        dispatched(old, new, d),
    ensures
        d matches Dispatch::Start { job_id, session_id, .. } ==> !is_busy(old, session_id),
        d matches Dispatch::Start { evicted: Some(gone), .. } ==> exists|k: int|
            0 <= k < old.workers.len() && (#[trigger] old.workers[k]).session_id == gone
                && !old.workers[k].busy,
{
    lemma_next_ready(old, old.queue);
}

proof fn lemma_next_ready(s: JobsView, queue: Seq<u128>)
    ensures
        next_ready(s, queue) matches Some(id) ==> is_ready(s, id) && queue.contains(id),
    decreases queue.len(),
{
    if queue.len() > 0 {
        lemma_next_ready(s, queue.drop_first());
        if is_ready(s, queue[0]) {
            assert(queue.contains(queue[0]));
        } else if next_ready(s, queue.drop_first()) is Some {
            let id = next_ready(s, queue.drop_first())->0;
            let k = queue.drop_first().index_of(id);
            assert(queue[k + 1] == id);
        }
    }
}

/// There are never more Workers than there may be: also once the Worker was
/// made that a Job needs.
pub proof fn workers_stay_within_the_capacity(old: JobsView, new: JobsView, d: Dispatch)
    requires
        sound(old),
        old.workers.len() <= old.capacity,
        dispatched(old, new, d),
    ensures
        new.workers.len() <= new.capacity,
        d matches Dispatch::Start { session_id, needs_worker, .. } ==> (needs_worker ==> with_worker(
            new,
            session_id,
            false,
        ).workers.len() <= new.capacity),
{
    match d {
        Dispatch::Start { session_id, .. } => {
            lemma_slot(worker_sessions(new.workers), session_id);
        },
        Dispatch::Idle => {},
    }
}

/// A Job that is picked has left the queue, so it is not picked again.
pub proof fn a_job_is_picked_once(old: JobsView, new: JobsView, d: Dispatch)
    requires
        dispatched(old, new, d),
    ensures
        d matches Dispatch::Start { job_id, .. } ==> old.queue.contains(job_id)
            && !new.queue.contains(job_id),
        d is Idle ==> new == old,
{
    lemma_next_ready(old, old.queue);
    if next_ready(old, old.queue) is Some {
        let id = next_ready(old, old.queue)->0;
        lemma_without(old.queue, id);
        let k = job_slot(old, id);
        lemma_slot(job_ids(old.jobs), id);
        assert(old.jobs[k].job_id == id);
    }
}

proof fn lemma_without(s: Seq<u128>, x: u128)
    ensures
        !without(s, x).contains(x),
        forall|y: u128| y != x && s.contains(y) ==> #[trigger] without(s, x).contains(y),
    decreases s.len(),
{
    if s.len() > 0 {
        let t = s.drop_last();
        let u = without(t, x);
        lemma_without(t, x);
        assert forall|y: u128| y != x && s.contains(y) implies #[trigger] without(s, x).contains(
            y,
        ) by {
            let k = s.index_of(y);
            if k < t.len() {
                assert(t[k] == y);
                assert(u.contains(y));
                let m = u.index_of(y);
                if s.last() != x {
                    assert(u.push(s.last())[m] == y);
                }
            } else {
                assert(u.push(s.last())[u.len() as int] == y);
            }
        }
        if s.last() != x && without(s, x).contains(x) {
            let m = without(s, x).index_of(x);
            if m < u.len() {
                assert(u[m] == x);
            }
        }
    }
}

/// A Job can be cancelled exactly while it is not over, and cancelling one does
/// not touch the others.
pub proof fn only_open_jobs_are_cancelled(s: JobsView, job: JobView, now: i128, other: u128)
    requires
        sound(s),
        job_of(s, job.job_id) == Some(job),
    ensures
        cancelled(s, job, now) is None <==> over(job.status),
        cancelled(s, job, now) matches Some(o) ==> (other != job.job_id ==> job_of(o.0, other)
            == job_of(s, other)),
        cancelled(s, job, now) matches Some(o) ==> job_of(o.0, job.job_id)->0.status == (
        if job.status == JobStatus::Queued {
            JobStatus::Cancelled
        } else {
            JobStatus::Cancelling
        }),
{
    let ids = job_ids(s.jobs);
    lemma_slot(ids, job.job_id);
    lemma_slot(ids, other);
    if cancelled(s, job, now) is Some {
        let after = (cancelled(s, job, now)->0).0;
        assert(job_ids(after.jobs) =~= ids);
    }
}

/// Only a Job that is over, and did not come to its end, is tried again.
pub proof fn only_unfinished_jobs_are_retried(status: JobStatus)
    ensures
        can_retry(status) <==> over(status) && status != JobStatus::Completed,
{
}

/// After the program was started again no Job is under way, a Job that was over
/// or waited is as it was, and those that wait are in the queue.
pub proof fn a_restart_leaves_no_job_under_way(
    capacity: usize,
    source: SessionId,
    jobs: Seq<JobView>,
    now: i128,
)
    requires
        job_ids(jobs).no_duplicates(),
    ensures
        ({
            let s = restored(capacity, source, jobs, now);
            &&& s.jobs == jobs.map_values(|j: JobView| job_restored(j, now))
            &&& s.workers.len() == 0
            &&& forall|i: int|
                0 <= i < jobs.len() ==> {
                    let j = #[trigger] jobs[i];
                    &&& !under_way(s.jobs[i].status)
                    &&& !under_way(j.status) ==> s.jobs[i] == j
                    &&& under_way(j.status) ==> s.jobs[i].status == JobStatus::Interrupted
                    &&& j.status == JobStatus::Queued ==> s.queue.contains(j.job_id)
                }
        }),
    decreases jobs.len(),
{
    let s = restored(capacity, source, jobs, now);
    if jobs.len() == 0 {
        assert(s.jobs =~= jobs.map_values(|j: JobView| job_restored(j, now)));
    } else {
        let front = jobs.drop_last();
        let ids = job_ids(jobs);
        assert(job_ids(front) =~= ids.drop_last());
        assert forall|a: int, b: int|
            0 <= a < front.len() && 0 <= b < front.len() && a != b implies job_ids(front)[a]
            != job_ids(front)[b] by {
            assert(ids[a] != ids[b]);
        }
        a_restart_leaves_no_job_under_way(capacity, source, front, now);
        let before = restored(capacity, source, front, now);
        let last = jobs.last();
        assert(job_ids(before.jobs) =~= job_ids(front));
        lemma_slot(job_ids(front), last.job_id);
        if slot_of(job_ids(front), last.job_id) < front.len() {
            let k = slot_of(job_ids(front), last.job_id);
            assert(ids[k] == ids[jobs.len() - 1]);
        }
        assert(s.jobs =~= before.jobs.push(job_restored(last, now)));
        assert(s.jobs =~= jobs.map_values(|j: JobView| job_restored(j, now)));
        assert forall|i: int| 0 <= i < jobs.len() implies {
            let j = #[trigger] jobs[i];
            &&& !under_way(s.jobs[i].status)
            &&& !under_way(j.status) ==> s.jobs[i] == j
            &&& under_way(j.status) ==> s.jobs[i].status == JobStatus::Interrupted
            &&& j.status == JobStatus::Queued ==> s.queue.contains(j.job_id)
        } by {
            let j = jobs[i];
            if i < front.len() {
                assert(front[i] == j);
                if j.status == JobStatus::Queued {
                    let m = before.queue.index_of(j.job_id);
                    assert(s.queue[m] == j.job_id);
                }
            } else if j.status == JobStatus::Queued {
                assert(s.queue[before.queue.len() as int] == j.job_id);
            }
        }
    }
}

} // verus!
