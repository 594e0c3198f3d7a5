//! What a Job amounts to over its life.
use crate::agent::diagnostics::AgentDiagnostics;
use crate::agent::event::AgentEventView;
use crate::ids::SessionId;
use crate::job::laws::other_jobs_are_left_alone;
use crate::job::manager::{
    asked, by_change, by_creation, cancelled, change, dispatched, end_event, has_worker, is_busy,
    is_ready, job_ended, job_ids, job_logged, job_of, job_restored, logged, new_job, next_ready,
    put_by_change, put_by_creation, released, sound, started, with_job, with_report, with_value,
    with_worker, without, worker_sessions, Dispatch, JobsView,
};
use crate::job::model::{over, ApprovalView, JobEventView, JobStatus, JobView};
use crate::llm::whole::flow;
use crate::seqs::{lemma_slot, slot_of};
use vstd::prelude::*;

verus! {

/// What can happen while a Job is open.
pub enum Happening {
    /// The scheduler looked for something to do.
    Dispatched { outcome: Dispatch },
    /// A Worker for a session was made.
    WorkerMade { session: SessionId },
    /// The Job was started, or could not be.
    Started { session: SessionId, now: i128, error: Option<Seq<char>> },
    /// The agent that works on the Job reported something.
    Reported { event: AgentEventView, now: i128 },
    /// The Job asked the user something.
    Asked { approval: ApprovalView, now: i128 },
    /// The user answered.
    Answered,
    /// The user cancelled the Job.
    Cancelled { now: i128 },
}

/// What happened to a Job turned the Jobs from what they were into what they are.
pub open spec fn happened(old: JobsView, id: u128, h: Happening, new: JobsView) -> bool {
    match h {
        Happening::Dispatched { outcome } => dispatched(old, new, outcome),
        Happening::WorkerMade { session } => new == with_worker(old, session, false),
        Happening::Started { session, now, error } => started(old, new, id, session, now, error),
        Happening::Reported { event, now } => match job_of(old, id) {
            None => new == old,
            Some(job) => new == logged(
                old,
                with_report(job, event),
                JobEventView::Agent(event),
                now,
            ),
        },
        Happening::Asked { approval, now } => match job_of(old, id) {
            None => new == (JobsView { approvals: with_value(old.approvals, id), ..old }),
            Some(job) => new == asked(old, job, approval, now),
        },
        Happening::Answered => if old.approvals.contains(id) {
            new == (JobsView { approvals: without(old.approvals, id), ..old })
        } else {
            new == old
        },
        Happening::Cancelled { now } => match job_of(old, id) {
            None => new == old,
            Some(job) => match cancelled(old, job, now) {
                Some(outcome) => new == outcome.0,
                None => new == old,
            },
        },
    }
}

/// The Jobs went from state to state by what happened, each time to some Job.
pub open spec fn unfolds(states: Seq<JobsView>, events: Seq<(u128, Happening)>) -> bool {
    &&& states.len() == events.len() + 1
    &&& forall|i: int| 0 <= i < states.len() ==> sound(#[trigger] states[i])
    &&& forall|i: int|
        0 <= i < events.len() ==> happened(
            states[i],
            (#[trigger] events[i]).0,
            events[i].1,
            states[i + 1],
        )
}

/// The texts that were reported for a Job, in order.
pub open spec fn chunks(events: Seq<(u128, Happening)>, id: u128) -> Seq<Seq<char>>
    decreases events.len(),
{
    if events.len() == 0 {
        Seq::empty()
    } else {
        let before = chunks(events.drop_last(), id);
        match events.last().1 {
            Happening::Reported { event: AgentEventView::TextDelta { chunk, .. }, .. } =>
                if events.last().0 == id {
                    before.push(chunk)
                } else {
                    before
                },
            _ => before,
        }
    }
}

/// What a Job was told to do, and where it came from, stays.
pub open spec fn same_task(a: JobView, b: JobView) -> bool {
    &&& a.job_id == b.job_id
    &&& a.source_session_id == b.source_session_id
    &&& a.session_id == b.session_id
    &&& a.workspace == b.workspace
    &&& a.prompt == b.prompt
    &&& a.retry_of == b.retry_of
    &&& a.created_at == b.created_at
}

/// A report never takes anything from what a Job has put out: a text adds exactly
/// itself, at the end, and any other report adds nothing. It goes into the log as
/// it came, and changes neither what the Job is nor how it stands, nor any other
/// Job.
pub proof fn a_report_only_adds(
    s: JobsView,
    id: u128,
    event: AgentEventView,
    now: i128,
    other: u128,
)
    requires
        sound(s),
        job_of(s, id) is Some,
    ensures
        ({
            let job = job_of(s, id)->0;
            let n = logged(s, with_report(job, event), JobEventView::Agent(event), now);
            &&& job_of(n, id) matches Some(after)
            &&& after.output.len() >= job.output.len()
            &&& after.output.take(job.output.len() as int) == job.output
            &&& after.output.skip(job.output.len() as int) == match event {
                AgentEventView::TextDelta { chunk, .. } => chunk,
                _ => Seq::empty(),
            }
            &&& same_task(after, job)
            &&& after.status == job.status
            &&& after.error == job.error
            &&& after.approval == job.approval
            &&& after.completed_at == job.completed_at
            &&& n.records.len() == s.records.len() + 1
            &&& n.records.drop_last() == s.records
            &&& n.records.last().event == JobEventView::Agent(event)
            &&& n.records.last().job_id == id
            &&& other != id ==> job_of(n, other) == job_of(s, other)
            &&& n.queue == s.queue
            &&& n.workers == s.workers
        }),
{
    let job = job_of(s, id)->0;
    lemma_slot(job_ids(s.jobs), id);
    assert(job.job_id == id);
    let n = logged(s, with_report(job, event), JobEventView::Agent(event), now);
    other_jobs_are_left_alone(s, with_report(job, event), JobEventView::Agent(event), now, other);
    let after = job_of(n, id)->0;
    assert(after.output.take(job.output.len() as int) =~= job.output);
    assert(after.output.skip(job.output.len() as int) =~= match event {
        AgentEventView::TextDelta { chunk, .. } => chunk,
        _ => Seq::empty(),
    });
    assert(n.records.drop_last() =~= s.records);
}

/// What a Job has put out is all text that was reported for it, in order, after what
/// it had put out before: whatever happened in between to it or to other Jobs,
/// nothing is lost and nothing is added. What the Job is about stays.
pub proof fn the_output_is_what_was_reported(
    states: Seq<JobsView>,
    events: Seq<(u128, Happening)>,
    id: u128,
)
    requires
        unfolds(states, events),
        job_of(states.first(), id) is Some,
    ensures
        ({
            let before = job_of(states.first(), id)->0;
            &&& job_of(states.last(), id) matches Some(after)
            &&& after.output == before.output + flow(chunks(events, id))
            &&& same_task(after, before)
        }),
    decreases events.len(),
{
    let before = job_of(states.first(), id)->0;
    if events.len() == 0 {
        assert(before.output + flow(chunks(events, id)) =~= before.output);
    } else {
        let front = states.drop_last();
        let past = events.drop_last();
        assert forall|i: int| 0 <= i < front.len() implies sound(#[trigger] front[i]) by {
            assert(front[i] == states[i]);
        }
        assert forall|i: int| 0 <= i < past.len() implies happened(
            front[i],
            (#[trigger] past[i]).0,
            past[i].1,
            front[i + 1],
        ) by {
            assert(past[i] == events[i]);
        }
        the_output_is_what_was_reported(front, past, id);
        let m = front.last();
        let last = events[events.len() - 1];
        assert(m == states[events.len() - 1]);
        assert(happened(m, last.0, last.1, states.last()));
        assert(sound(m));
        lemma_one_happening(m, last.0, last.1, states.last(), id);
        let mid = job_of(m, id)->0;
        let after = job_of(states.last(), id)->0;
        if chunks(events, id) != chunks(past, id) {
            let c = chunks(events, id).last();
            assert(chunks(events, id).drop_last() =~= chunks(past, id));
            assert(after.output =~= mid.output + c);
            assert(before.output + (flow(chunks(past, id)) + c) =~= before.output + flow(
                chunks(past, id),
            ) + c);
        }
    }
}

/// What a Job has put out since it was submitted is all text that was reported for it,
/// in order, and nothing else.
pub proof fn the_output_begins_with_the_job(
    submitted: JobsView,
    states: Seq<JobsView>,
    events: Seq<(u128, Happening)>,
    id: u128,
    source: SessionId,
    session: SessionId,
    workspace: Seq<char>,
    prompt: Seq<char>,
    retry_of: Option<u128>,
    now: i128,
)
    requires
        unfolds(states, events),
        states.first().jobs == with_job(
            submitted.jobs,
            job_logged(new_job(id, source, session, workspace, prompt, retry_of, now), now),
        ),
    ensures
        ({
            &&& job_of(states.last(), id) matches Some(job)
            &&& job.output == flow(chunks(events, id))
            &&& job.prompt == prompt
            &&& job.workspace == workspace
            &&& job.session_id == session
            &&& job.source_session_id == source
            &&& job.retry_of == retry_of
            &&& job.created_at == now
        }),
{
    let job = job_logged(new_job(id, source, session, workspace, prompt, retry_of, now), now);
    let first = states.first();
    let ids = job_ids(submitted.jobs);
    lemma_slot(ids, id);
    lemma_slot(job_ids(first.jobs), id);
    let k = slot_of(ids, id);
    assert(states[0] == first);
    assert(first.jobs[k] == job);
    assert(job_ids(first.jobs)[k] == id);
    let j = slot_of(job_ids(first.jobs), id);
    assert(job_ids(first.jobs)[j] == id);
    assert(job_ids(first.jobs).no_duplicates());
    assert(j == k);
    the_output_is_what_was_reported(states, events, id);
    assert(job.output + flow(chunks(events, id)) =~= flow(chunks(events, id)));
}

/// A Job that is put among the others can be found under its identifier, as it was
/// put there, and no other Job changes.
pub proof fn a_job_is_found_as_it_was_put(s: JobsView, n: JobsView, job: JobView, other: u128)
    requires
        sound(s),
        n.jobs == with_job(s.jobs, job),
    ensures
        job_of(n, job.job_id) == Some(job),
        other != job.job_id ==> job_of(n, other) == job_of(s, other),
{
    let ids = job_ids(s.jobs);
    lemma_slot(ids, job.job_id);
    lemma_slot(ids, other);
    let k = slot_of(ids, job.job_id);
    let now = job_ids(n.jobs);
    lemma_slot(now, job.job_id);
    lemma_slot(now, other);
    if k < s.jobs.len() {
        assert(now =~= ids);
    } else {
        assert(now =~= ids.push(job.job_id));
        let j = slot_of(now, job.job_id);
        if j < ids.len() {
            assert(ids[j] == job.job_id);
        }
        let i = slot_of(ids, other);
        let m = slot_of(now, other);
        if other != job.job_id {
            if i < ids.len() {
                assert(now[i] == other);
                if m < i {
                    assert(ids[m] == other);
                }
            } else if m < now.len() {
                assert(now[m] == other);
            }
        }
    }
}

/// When a Worker's turn has ended, the Job is over and stands as its end says: it has
/// put out what the Worker handed over, it keeps the error or the diagnostics, it
/// waits for no answer, and its Worker is free.
pub proof fn a_finished_job_keeps_its_end(
    s: JobsView,
    id: u128,
    result: Result<AgentDiagnostics, Seq<char>>,
    output: Seq<char>,
    stopped: bool,
    now: i128,
    other: u128,
)
    requires
        sound(s),
        job_of(s, id) is Some,
    ensures
        ({
            let job = job_of(s, id)->0;
            let n = released(
                logged(
                    s,
                    job_ended(job, result, output, stopped, now),
                    end_event(result, output, stopped),
                    now,
                ),
                job.session_id,
                id,
            );
            &&& job_of(n, id) matches Some(after)
            &&& over(after.status)
            &&& after.status == JobStatus::Cancelled <==> stopped
            &&& after.status == JobStatus::Completed <==> !stopped && result is Ok
            &&& after.output == output
            &&& after.completed_at == Some(now)
            &&& after.approval is None
            &&& result matches Err(m) ==> after.error == Some(m)
            &&& result matches Ok(d) ==> after.diagnostics == Some(d)
            &&& same_task(after, job)
            &&& !n.approvals.contains(id)
            &&& !is_busy(n, job.session_id)
            &&& other != id ==> job_of(n, other) == job_of(s, other)
            &&& n.records.len() == s.records.len() + 1
            &&& n.records.last().event matches JobEventView::Completed { output: told, .. }
                ==> told == output
        }),
{
    let job = job_of(s, id)->0;
    lemma_slot(job_ids(s.jobs), id);
    assert(job.job_id == id);
    let ended = job_ended(job, result, output, stopped, now);
    let event = end_event(result, output, stopped);
    other_jobs_are_left_alone(s, ended, event, now, other);
    let mid = logged(s, ended, event, now);
    let n = released(mid, job.session_id, id);
    assert(n.jobs == mid.jobs);
    lemma_gone(mid.approvals, id);
    if has_worker(mid, job.session_id) {
        lemma_freed(mid, job.session_id);
    }
}

/// A restart ends what was under way and changes nothing else: what a Job had put out
/// by then is kept.
pub proof fn a_restart_keeps_the_output(job: JobView, now: i128)
    ensures
        job_restored(job, now).output == job.output,
        job_restored(job, now).error == job.error,
        same_task(job_restored(job, now), job),
        over(job.status) ==> job_restored(job, now) == job,
        job.status == JobStatus::Queued ==> job_restored(job, now) == job,
{
}

/// No Job changed earlier than one behind it.
pub open spec fn latest_change_first(jobs: Seq<JobView>) -> bool {
    forall|i: int, j: int|
        0 <= i < j < jobs.len() ==> (#[trigger] jobs[i]).updated_at >= (
        #[trigger] jobs[j]).updated_at
}

/// No Job is younger than one behind it.
pub open spec fn oldest_first(jobs: Seq<JobView>) -> bool {
    forall|i: int, j: int|
        0 <= i < j < jobs.len() ==> (#[trigger] jobs[i]).created_at <= (
        #[trigger] jobs[j]).created_at
}

/// The list of Jobs begins with the one that changed last, and neither loses nor adds
/// a Job.
pub proof fn the_list_begins_with_the_latest_change(jobs: Seq<JobView>)
    ensures
        latest_change_first(by_change(jobs)),
        by_change(jobs).to_multiset() == jobs.to_multiset(),
        by_change(jobs).len() == jobs.len(),
    decreases jobs.len(),
{
    broadcast use vstd::seq_lib::group_to_multiset_ensures;

    if jobs.len() > 0 {
        the_list_begins_with_the_latest_change(jobs.drop_last());
        lemma_by_change(by_change(jobs.drop_last()), jobs.last());
        assert(jobs =~= jobs.drop_last().push(jobs.last()));
    }
}

/// Jobs are taken in from the oldest on, and none is lost or added.
pub proof fn jobs_are_taken_in_by_age(jobs: Seq<JobView>)
    ensures
        oldest_first(by_creation(jobs)),
        by_creation(jobs).to_multiset() == jobs.to_multiset(),
        by_creation(jobs).len() == jobs.len(),
    decreases jobs.len(),
{
    broadcast use vstd::seq_lib::group_to_multiset_ensures;

    if jobs.len() > 0 {
        jobs_are_taken_in_by_age(jobs.drop_last());
        lemma_by_creation(by_creation(jobs.drop_last()), jobs.last());
        assert(jobs =~= jobs.drop_last().push(jobs.last()));
    }
}

proof fn lemma_by_change(sorted: Seq<JobView>, new: JobView)
    requires
        latest_change_first(sorted),
    ensures
        latest_change_first(put_by_change(sorted, new)),
        put_by_change(sorted, new).to_multiset() == sorted.push(new).to_multiset(),
        put_by_change(sorted, new).len() == sorted.len() + 1,
        forall|i: int|
            0 <= i <= sorted.len() ==> (#[trigger] put_by_change(sorted, new)[i]) == new
                || sorted.contains(put_by_change(sorted, new)[i]),
    decreases sorted.len(),
{
    broadcast use vstd::seq_lib::group_to_multiset_ensures;

    let out = put_by_change(sorted, new);
    if sorted.len() == 0 || sorted.last().updated_at >= new.updated_at {
        assert forall|i: int| 0 <= i <= sorted.len() implies (#[trigger] out[i]) == new
            || sorted.contains(out[i]) by {
            if i < sorted.len() {
                assert(sorted[i] == out[i]);
            }
        }
        assert forall|i: int, j: int| 0 <= i < j < out.len() implies (#[trigger] out[i]).updated_at
            >= (#[trigger] out[j]).updated_at by {
            if j == sorted.len() && i < sorted.len() - 1 {
                assert(sorted[i].updated_at >= sorted[sorted.len() - 1].updated_at);
            }
        }
    } else {
        let t = sorted.drop_last();
        assert(latest_change_first(t)) by {
            assert forall|i: int, j: int| 0 <= i < j < t.len() implies (
            #[trigger] t[i]).updated_at >= (#[trigger] t[j]).updated_at by {
                assert(sorted[i].updated_at >= sorted[j].updated_at);
            }
        }
        lemma_by_change(t, new);
        let u = put_by_change(t, new);
        assert(out == u.push(sorted.last()));
        assert(sorted =~= t.push(sorted.last()));
        assert(out.to_multiset() =~= sorted.push(new).to_multiset());
        assert forall|i: int| 0 <= i <= sorted.len() implies (#[trigger] out[i]) == new
            || sorted.contains(out[i]) by {
            if i < u.len() {
                assert(u[i] == out[i]);
                if u[i] != new {
                    let k = choose|k: int| 0 <= k < t.len() && t[k] == u[i];
                    assert(sorted[k] == out[i]);
                }
            } else {
                assert(sorted[sorted.len() - 1] == out[i]);
            }
        }
        assert forall|i: int, j: int| 0 <= i < j < out.len() implies (#[trigger] out[i]).updated_at
            >= (#[trigger] out[j]).updated_at by {
            if j < u.len() {
                assert(u[i].updated_at >= u[j].updated_at);
            } else {
                assert(out[i] == u[i]);
                if u[i] != new {
                    let k = choose|k: int| 0 <= k < t.len() && t[k] == u[i];
                    assert(sorted[k].updated_at >= sorted[sorted.len() - 1].updated_at);
                }
            }
        }
    }
}

proof fn lemma_by_creation(sorted: Seq<JobView>, new: JobView)
    requires
        oldest_first(sorted),
    ensures
        oldest_first(put_by_creation(sorted, new)),
        put_by_creation(sorted, new).to_multiset() == sorted.push(new).to_multiset(),
        put_by_creation(sorted, new).len() == sorted.len() + 1,
        forall|i: int|
            0 <= i <= sorted.len() ==> (#[trigger] put_by_creation(sorted, new)[i]) == new
                || sorted.contains(put_by_creation(sorted, new)[i]),
    decreases sorted.len(),
{
    broadcast use vstd::seq_lib::group_to_multiset_ensures;

    let out = put_by_creation(sorted, new);
    if sorted.len() == 0 || sorted.last().created_at <= new.created_at {
        assert forall|i: int| 0 <= i <= sorted.len() implies (#[trigger] out[i]) == new
            || sorted.contains(out[i]) by {
            if i < sorted.len() {
                assert(sorted[i] == out[i]);
            }
        }
        assert forall|i: int, j: int| 0 <= i < j < out.len() implies (#[trigger] out[i]).created_at
            <= (#[trigger] out[j]).created_at by {
            if j == sorted.len() && i < sorted.len() - 1 {
                assert(sorted[i].created_at <= sorted[sorted.len() - 1].created_at);
            }
        }
    } else {
        let t = sorted.drop_last();
        assert(oldest_first(t)) by {
            assert forall|i: int, j: int| 0 <= i < j < t.len() implies (
            #[trigger] t[i]).created_at <= (#[trigger] t[j]).created_at by {
                assert(sorted[i].created_at <= sorted[j].created_at);
            }
        }
        lemma_by_creation(t, new);
        let u = put_by_creation(t, new);
        assert(out == u.push(sorted.last()));
        assert(sorted =~= t.push(sorted.last()));
        assert(out.to_multiset() =~= sorted.push(new).to_multiset());
        assert forall|i: int| 0 <= i <= sorted.len() implies (#[trigger] out[i]) == new
            || sorted.contains(out[i]) by {
            if i < u.len() {
                assert(u[i] == out[i]);
                if u[i] != new {
                    let k = choose|k: int| 0 <= k < t.len() && t[k] == u[i];
                    assert(sorted[k] == out[i]);
                }
            } else {
                assert(sorted[sorted.len() - 1] == out[i]);
            }
        }
        assert forall|i: int, j: int| 0 <= i < j < out.len() implies (#[trigger] out[i]).created_at
            <= (#[trigger] out[j]).created_at by {
            if j < u.len() {
                assert(u[i].created_at <= u[j].created_at);
            } else {
                assert(out[i] == u[i]);
                if u[i] != new {
                    let k = choose|k: int| 0 <= k < t.len() && t[k] == u[i];
                    assert(sorted[k].created_at <= sorted[sorted.len() - 1].created_at);
                }
            }
        }
    }
}

proof fn lemma_gone(s: Seq<u128>, x: u128)
    ensures
        !without(s, x).contains(x),
    decreases s.len(),
{
    if s.len() > 0 {
        lemma_gone(s.drop_last(), x);
        let u = without(s.drop_last(), x);
        if without(s, x).contains(x) && s.last() != x {
            let m = without(s, x).index_of(x);
            if m < u.len() {
                assert(u[m] == x);
            }
        }
    }
}

proof fn lemma_freed(s: JobsView, session: SessionId)
    requires
        has_worker(s, session),
    ensures
        !is_busy(with_worker(s, session, false), session),
{
    let n = with_worker(s, session, false);
    lemma_slot(worker_sessions(s.workers), session);
    assert(worker_sessions(n.workers) =~= worker_sessions(s.workers));
}

proof fn lemma_one_happening(old: JobsView, at: u128, h: Happening, new: JobsView, id: u128)
    requires
        sound(old),
        happened(old, at, h, new),
        job_of(old, id) is Some,
    ensures
        ({
            let before = job_of(old, id)->0;
            &&& job_of(new, id) matches Some(after)
            &&& after.output == before.output + match h {
                Happening::Reported { event: AgentEventView::TextDelta { chunk, .. }, .. } =>
                    if at == id {
                        chunk
                    } else {
                        Seq::empty()
                    },
                _ => Seq::empty(),
            }
            &&& same_task(after, before)
        }),
{
    let before = job_of(old, id)->0;
    lemma_slot(job_ids(old.jobs), id);
    lemma_slot(job_ids(old.jobs), at);
    assert(before.output + Seq::<char>::empty() =~= before.output);
    match h {
        Happening::Dispatched { .. } => {
            assert(new.jobs == old.jobs);
        },
        Happening::WorkerMade { .. } => {},
        Happening::Started { session, now, error } => {
            if job_of(old, at) is Some {
                let job = job_of(old, at)->0;
                let running = JobView { status: JobStatus::Running, approval: None, ..job };
                let event = change(job.status, JobStatus::Running, None);
                other_jobs_are_left_alone(old, running, event, now, id);
                assert(new.jobs == logged(old, running, event, now).jobs);
            }
        },
        Happening::Reported { event, now } => {
            if job_of(old, at) is Some {
                a_report_only_adds(old, at, event, now, id);
                let after = job_of(new, id)->0;
                if at == id {
                    let n = before.output.len() as int;
                    assert(after.output =~= after.output.take(n) + after.output.skip(n));
                }
            }
        },
        Happening::Asked { approval, now } => {
            if job_of(old, at) is Some {
                lemma_asked(old, at, approval, now, id);
            }
        },
        Happening::Answered => {},
        Happening::Cancelled { now } => {
            if job_of(old, at) is Some {
                let job = job_of(old, at)->0;
                if cancelled(old, job, now) is Some {
                    let after = (cancelled(old, job, now)->0).0;
                    assert(job_ids(after.jobs) =~= job_ids(old.jobs));
                }
            }
        },
    }
}

proof fn lemma_asked(s: JobsView, id: u128, approval: ApprovalView, now: i128, other: u128)
    requires
        sound(s),
        job_of(s, id) is Some,
        job_of(s, other) is Some,
    ensures
        ({
            let before = job_of(s, other)->0;
            &&& job_of(asked(s, job_of(s, id)->0, approval, now), other) matches Some(after)
            &&& after.output == before.output
            &&& same_task(after, before)
        }),
{
    let ids = job_ids(s.jobs);
    lemma_slot(ids, id);
    lemma_slot(ids, other);
    let job = job_of(s, id)->0;
    let waiting = JobView { status: JobStatus::WaitingApproval, ..job };
    let first = logged(
        JobsView { approvals: with_value(s.approvals, id), ..s },
        waiting,
        change(
            job.status,
            JobStatus::WaitingApproval,
            Some("approval required for "@ + approval.tool_name),
        ),
        now,
    );
    assert(job_ids(first.jobs) =~= ids);
    let n = asked(s, job, approval, now);
    assert(job_ids(n.jobs) =~= ids);
}

/// The Job that is picked is the first in the queue that can be given to a Worker now;
/// none is picked only where no Job in the queue can.
pub proof fn the_first_job_that_can_start_is_picked(s: JobsView, queue: Seq<u128>)
    ensures
        match next_ready(s, queue) {
            Some(id) => exists|k: int|
                {
                    &&& 0 <= k < queue.len()
                    &&& #[trigger] queue[k] == id
                    &&& is_ready(s, id)
                    &&& forall|j: int| 0 <= j < k ==> !is_ready(s, #[trigger] queue[j])
                },
            None => forall|j: int| 0 <= j < queue.len() ==> !is_ready(s, #[trigger] queue[j]),
        },
    decreases queue.len(),
{
    if queue.len() > 0 && !is_ready(s, queue[0]) {
        let t = queue.drop_first();
        the_first_job_that_can_start_is_picked(s, t);
        match next_ready(s, t) {
            Some(id) => {
                let k = choose|k: int|
                    {
                        &&& 0 <= k < t.len()
                        &&& #[trigger] t[k] == id
                        &&& is_ready(s, id)
                        &&& forall|j: int| 0 <= j < k ==> !is_ready(s, #[trigger] t[j])
                    };
                assert(queue[k + 1] == id);
                assert forall|j: int| 0 <= j < k + 1 implies !is_ready(s, #[trigger] queue[j]) by {
                    if j > 0 {
                        assert(t[j - 1] == queue[j]);
                    }
                }
            },
            None => {
                assert forall|j: int| 0 <= j < queue.len() implies !is_ready(
                    s,
                    #[trigger] queue[j],
                ) by {
                    if j > 0 {
                        assert(t[j - 1] == queue[j]);
                    }
                }
            },
        }
    }
}

/// A Job can be given to a Worker exactly where there is such a Job and no Worker of its
/// session is at work.
pub proof fn a_job_waits_for_its_session(s: JobsView, id: u128)
    requires
        sound(s),
    ensures
        is_ready(s, id) <==> exists|j: int|
            0 <= j < s.jobs.len() && (#[trigger] s.jobs[j]).job_id == id && forall|k: int|
                0 <= k < s.workers.len() && (#[trigger] s.workers[k]).session_id
                    == s.jobs[j].session_id ==> !s.workers[k].busy,
{
    let ids = job_ids(s.jobs);
    lemma_slot(ids, id);
    assert forall|j: int| 0 <= j < s.jobs.len() implies ids[j] == (#[trigger] s.jobs[j]).job_id by {}
    let at = slot_of(ids, id);
    if at < s.jobs.len() {
        let job = s.jobs[at];
        let sessions = worker_sessions(s.workers);
        lemma_slot(sessions, job.session_id);
        let w = slot_of(sessions, job.session_id);
        assert forall|k: int| 0 <= k < s.workers.len() implies sessions[k] == (
        #[trigger] s.workers[k]).session_id by {}
        assert forall|j: int| 0 <= j < s.jobs.len() && (
        #[trigger] s.jobs[j]).job_id == id implies j == at by {
            assert(ids[j] == ids[at]);
        }
        assert(is_busy(s, job.session_id) <==> exists|k: int|
            0 <= k < s.workers.len() && (#[trigger] s.workers[k]).session_id == job.session_id
                && s.workers[k].busy) by {
            if w < s.workers.len() {
                assert(s.workers[w].session_id == job.session_id);
                assert forall|k: int| 0 <= k < s.workers.len() && (
                #[trigger] s.workers[k]).session_id == job.session_id implies k == w by {
                    assert(sessions[k] == sessions[w]);
                }
            }
        }
        assert(s.jobs[at].job_id == id);
    } else {
        assert forall|j: int| 0 <= j < s.jobs.len() implies (#[trigger] s.jobs[j]).job_id != id by {
            assert(ids[j] != id);
        }
    }
}

/// A Job that is cancelled while it waits is over and waits no more. One that is under way
/// is asked to stop: its Worker is told where it has one, and a question that is open is
/// answered with a refusal. Nothing else of the Jobs changes.
pub proof fn a_cancelled_job_is_called_off(s: JobsView, job: JobView, now: i128)
    requires
        sound(s),
        job_of(s, job.job_id) == Some(job),
        !over(job.status),
    ensures
        ({
            let (n, told) = cancelled(s, job, now)->0;
            &&& cancelled(s, job, now) is Some
            &&& n.workers == s.workers
            &&& job.status == JobStatus::Queued ==> {
                &&& !n.queue.contains(job.job_id)
                &&& told.notify is None
                &&& !told.reject_approval
                &&& n.approvals == s.approvals
            }
            &&& job.status == JobStatus::Running || job.status == JobStatus::WaitingApproval ==> {
                &&& n.queue == s.queue
                &&& told.notify == (if has_worker(s, job.session_id) {
                    Some(job.session_id)
                } else {
                    None
                })
                &&& told.reject_approval <==> job.status == JobStatus::WaitingApproval
                    && s.approvals.contains(job.job_id)
                &&& job.status == JobStatus::WaitingApproval ==> !n.approvals.contains(job.job_id)
            }
            &&& job.status == JobStatus::Cancelling ==> n == s && told.notify is None
            &&& job.status != JobStatus::Cancelling ==> n.records.len() == s.records.len() + 1
        }),
{
    lemma_gone(s.queue, job.job_id);
    lemma_gone(s.approvals, job.job_id);
}

/// A Job that asks the user something waits for the answer, with the whole question kept;
/// both that it waits and what it asks go into the log.
pub proof fn a_question_of_a_job_is_kept(s: JobsView, id: u128, approval: ApprovalView, now: i128)
    requires
        sound(s),
        job_of(s, id) is Some,
    ensures
        ({
            let n = asked(s, job_of(s, id)->0, approval, now);
            &&& job_of(n, id) matches Some(after)
            &&& after.status == JobStatus::WaitingApproval
            &&& after.approval == Some(approval)
            &&& n.approvals.contains(id)
            &&& n.records.len() == s.records.len() + 2
            &&& n.records.last().event == JobEventView::ApprovalRequired(approval)
            &&& n.records.last().job_id == id
            &&& n.queue == s.queue
        }),
{
    let ids = job_ids(s.jobs);
    lemma_slot(ids, id);
    let job = job_of(s, id)->0;
    assert(job.job_id == id);
    let waiting = JobView { status: JobStatus::WaitingApproval, ..job };
    let first = logged(
        JobsView { approvals: with_value(s.approvals, id), ..s },
        waiting,
        change(
            job.status,
            JobStatus::WaitingApproval,
            Some("approval required for "@ + approval.tool_name),
        ),
        now,
    );
    assert(job_ids(first.jobs) =~= ids);
    let n = asked(s, job, approval, now);
    assert(job_ids(n.jobs) =~= ids);
    assert(with_value(s.approvals, id).last() == id);
}

/// A Job that was started runs, waits for no answer, and keeps the Worker of its session
/// at work.
pub proof fn a_started_job_runs(
    old: JobsView,
    new: JobsView,
    id: u128,
    session: SessionId,
    now: i128,
)
    requires
        sound(old),
        started(old, new, id, session, now, None),
    ensures
        job_of(old, id) is Some,
        job_of(new, id) matches Some(after) && after.status == JobStatus::Running
            && after.approval is None && after.output == job_of(old, id)->0.output,
        is_busy(new, session),
{
    let job = job_of(old, id)->0;
    lemma_slot(job_ids(old.jobs), id);
    assert(job.job_id == id);
    let running = JobView { status: JobStatus::Running, approval: None, ..job };
    let event = change(job.status, JobStatus::Running, None);
    other_jobs_are_left_alone(old, running, event, now, id);
    let mid = logged(old, running, event, now);
    lemma_slot(worker_sessions(mid.workers), session);
    assert(worker_sessions(new.workers) =~= worker_sessions(mid.workers));
    assert(new.jobs == mid.jobs);
}

} // verus!
