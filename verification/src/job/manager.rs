//! The Jobs, their queue and their Workers.
use crate::agent::diagnostics::AgentDiagnostics;
use crate::agent::event::{AgentEvent, AgentEventView};
use crate::error::{fail, fail_with, Error};
use crate::ids::{hyphenated, uuid_text, SessionId};
use crate::job::model::{
    job_views, notification_views, over, status_name, under_way, ApprovalView, JobApproval,
    JobEvent, JobEventNotification, JobEventRecord, JobEventView, JobStatus, JobSummary, JobView,
    NotificationView, DEFAULT_MAX_WORKERS, JOB_SCHEMA_VERSION,
};
use crate::agent::control::ApprovalRequest;
use crate::llm::protocol::capped_sum;
use crate::seqs::{lemma_slot, lemma_slot_is, slot_of};
use crate::text::{blank, decimal, decimal_of, is_blank};
use vstd::prelude::*;

verus! {

/// Something that works on the Jobs of one session.
#[derive(Debug, Clone, Copy, PartialEq, Eq, Structural)]
pub struct Worker {
    pub session_id: SessionId,
    pub busy: bool,
}

/// The Jobs. `records` are those that are still to be written and published.
#[derive(Debug)]
pub struct JobManager {
    jobs: Vec<JobSummary>,
    queue: Vec<u128>,
    workers: Vec<Worker>,
    approvals: Vec<u128>,
    records: Vec<JobEventNotification>,
    capacity: usize,
    default_source: SessionId,
}

/// The view of the Jobs.
#[verifier::ext_equal]
pub struct JobsView {
    pub jobs: Seq<JobView>,
    pub queue: Seq<u128>,
    pub workers: Seq<Worker>,
    pub approvals: Seq<u128>,
    pub records: Seq<NotificationView>,
    pub capacity: usize,
    pub default_source: SessionId,
}

impl View for JobManager {
    type V = JobsView;

    closed spec fn view(&self) -> JobsView {
        JobsView {
            jobs: job_views(self.jobs@),
            queue: self.queue@,
            workers: self.workers@,
            approvals: self.approvals@,
            records: notification_views(self.records@),
            capacity: self.capacity,
            default_source: self.default_source,
        }
    }
}

/// The identifiers of Jobs.
pub open spec fn job_ids(jobs: Seq<JobView>) -> Seq<u128> {
    jobs.map_values(|j: JobView| j.job_id)
}

/// The sessions of Workers.
pub open spec fn worker_sessions(workers: Seq<Worker>) -> Seq<SessionId> {
    workers.map_values(|w: Worker| w.session_id)
}

/// Where a Job stands.
pub open spec fn job_slot(s: JobsView, id: u128) -> int {
    slot_of(job_ids(s.jobs), id)
}

/// The Job of an identifier.
pub open spec fn job_of(s: JobsView, id: u128) -> Option<JobView> {
    let k = job_slot(s, id);
    if k < s.jobs.len() {
        Some(s.jobs[k])
    } else {
        None
    }
}

/// Where a session's Worker stands.
pub open spec fn worker_slot(s: JobsView, session: SessionId) -> int {
    slot_of(worker_sessions(s.workers), session)
}

/// A session has a Worker.
pub open spec fn has_worker(s: JobsView, session: SessionId) -> bool {
    worker_slot(s, session) < s.workers.len()
}

/// A session's Worker is at work.
pub open spec fn is_busy(s: JobsView, session: SessionId) -> bool {
    has_worker(s, session) && s.workers[worker_slot(s, session)].busy
}

/// What holds of the Jobs at all times: no Job and no Worker occurs twice, and
/// there may be Workers.
pub open spec fn sound(s: JobsView) -> bool {
    &&& job_ids(s.jobs).no_duplicates()
    &&& worker_sessions(s.workers).no_duplicates()
    &&& s.capacity > 0
}

/// A Job with an event in its log.
pub open spec fn job_logged(job: JobView, now: i128) -> JobView {
    JobView { last_sequence: capped_sum(job.last_sequence, 1), updated_at: now, ..job }
}

/// The record of an event of a Job.
pub open spec fn record_of(job: JobView, event: JobEventView, now: i128) -> NotificationView {
    NotificationView {
        job_id: job.job_id,
        schema_version: JOB_SCHEMA_VERSION,
        sequence: capped_sum(job.last_sequence, 1),
        timestamp: now,
        event,
    }
}

/// The Jobs after one has become another and an event of it was logged.
pub open spec fn logged(s: JobsView, job: JobView, event: JobEventView, now: i128) -> JobsView {
    JobsView {
        jobs: s.jobs.update(job_slot(s, job.job_id), job_logged(job, now)),
        records: s.records.push(record_of(job, event, now)),
        ..s
    }
}

/// The event of a change of status.
pub open spec fn change(from: JobStatus, to: JobStatus, reason: Option<Seq<char>>) -> JobEventView {
    JobEventView::StateChanged { from: Some(from), to, reason }
}

/// A list without one of its values.
pub open spec fn without(s: Seq<u128>, x: u128) -> Seq<u128>
    decreases s.len(),
{
    if s.len() == 0 {
        Seq::empty()
    } else if s.last() == x {
        without(s.drop_last(), x)
    } else {
        without(s.drop_last(), x).push(s.last())
    }
}

fn drop_value(list: &Vec<u128>, x: u128) -> (r: Vec<u128>)
    ensures
        r@ == without(list@, x),
{
    let mut out: Vec<u128> = Vec::new();
    let mut i: usize = 0;
    assert(list@.take(0) =~= Seq::empty());
    while i < list.len()
        invariant
            i <= list.len(),
            out@ == without(list@.take(i as int), x),
        decreases list.len() - i,
    {
        assert(list@.take(i + 1).drop_last() =~= list@.take(i as int));
        if list[i] != x {
            out.push(list[i]);
        }
        i += 1;
    }
    assert(list@.take(i as int) =~= list@);
    out
}

/// A list with a value, which it holds once.
pub open spec fn with_value(s: Seq<u128>, x: u128) -> Seq<u128> {
    without(s, x).push(x)
}

/// A Job in its place by the time of its creation: behind all that are not
/// younger.
pub open spec fn put_by_creation(sorted: Seq<JobView>, new: JobView) -> Seq<JobView>
    decreases sorted.len(),
{
    if sorted.len() == 0 || sorted.last().created_at <= new.created_at {
        sorted.push(new)
    } else {
        put_by_creation(sorted.drop_last(), new).push(sorted.last())
    }
}

/// Jobs from the oldest to the youngest.
pub open spec fn by_creation(s: Seq<JobView>) -> Seq<JobView>
    decreases s.len(),
{
    if s.len() == 0 {
        Seq::empty()
    } else {
        put_by_creation(by_creation(s.drop_last()), s.last())
    }
}

/// A Job in its place by the time of its last change: behind all that are not
/// older.
pub open spec fn put_by_change(sorted: Seq<JobView>, new: JobView) -> Seq<JobView>
    decreases sorted.len(),
{
    if sorted.len() == 0 || sorted.last().updated_at >= new.updated_at {
        sorted.push(new)
    } else {
        put_by_change(sorted.drop_last(), new).push(sorted.last())
    }
}

/// Jobs from the one that changed last on.
pub open spec fn by_change(s: Seq<JobView>) -> Seq<JobView>
    decreases s.len(),
{
    if s.len() == 0 {
        Seq::empty()
    } else {
        put_by_change(by_change(s.drop_last()), s.last())
    }
}

fn sort_by_creation(jobs: &Vec<JobSummary>) -> (r: Vec<JobSummary>)
    ensures
        job_views(r@) == by_creation(job_views(jobs@)),
{
    let mut out: Vec<JobSummary> = Vec::new();
    let ghost all = job_views(jobs@);
    let mut i: usize = 0;
    assert(job_views(out@) =~= by_creation(all.take(0)));
    while i < jobs.len()
        invariant
            i <= jobs.len(),
            all == job_views(jobs@),
            job_views(out@) == by_creation(all.take(i as int)),
        decreases jobs.len() - i,
    {
        let item = jobs[i].clone();
        let ghost before = job_views(out@);
        let mut at: usize = out.len();
        assert(before.take(at as int) =~= before);
        assert(before.skip(at as int) =~= Seq::empty());
        while at > 0 && out[at - 1].created_at > item.created_at
            invariant
                at <= out.len(),
                before == job_views(out@),
                put_by_creation(before, item@) == put_by_creation(before.take(at as int), item@)
                    + before.skip(at as int),
            decreases at,
        {
            proof {
                let part = before.take(at as int);
                assert(part.last() == out@[at - 1]@);
                assert(part.drop_last() =~= before.take(at - 1));
                assert(put_by_creation(part, item@) + before.skip(at as int) =~= put_by_creation(
                    before.take(at - 1),
                    item@,
                ) + before.skip(at - 1));
            }
            at -= 1;
        }
        let ghost view = item@;
        proof {
            let part = before.take(at as int);
            if at > 0 {
                assert(part.last() == out@[at - 1]@);
            }
            assert(put_by_creation(part, view) == part.push(view));
            assert(part.push(view) + before.skip(at as int) =~= before.insert(at as int, view));
        }
        out.insert(at, item);
        assert(job_views(out@) =~= before.insert(at as int, view));
        i += 1;
        assert(all.take(i as int).drop_last() =~= all.take(i - 1));
        assert(all.take(i as int).last() == view);
    }
    assert(all.take(i as int) =~= all);
    out
}

fn sort_by_change(jobs: &Vec<JobSummary>) -> (r: Vec<JobSummary>)
    ensures
        job_views(r@) == by_change(job_views(jobs@)),
{
    let mut out: Vec<JobSummary> = Vec::new();
    let ghost all = job_views(jobs@);
    let mut i: usize = 0;
    assert(job_views(out@) =~= by_change(all.take(0)));
    while i < jobs.len()
        invariant
            i <= jobs.len(),
            all == job_views(jobs@),
            job_views(out@) == by_change(all.take(i as int)),
        decreases jobs.len() - i,
    {
        let item = jobs[i].clone();
        let ghost before = job_views(out@);
        let mut at: usize = out.len();
        assert(before.take(at as int) =~= before);
        assert(before.skip(at as int) =~= Seq::empty());
        while at > 0 && out[at - 1].updated_at < item.updated_at
            invariant
                at <= out.len(),
                before == job_views(out@),
                put_by_change(before, item@) == put_by_change(before.take(at as int), item@)
                    + before.skip(at as int),
            decreases at,
        {
            proof {
                let part = before.take(at as int);
                assert(part.last() == out@[at - 1]@);
                assert(part.drop_last() =~= before.take(at - 1));
                assert(put_by_change(part, item@) + before.skip(at as int) =~= put_by_change(
                    before.take(at - 1),
                    item@,
                ) + before.skip(at - 1));
            }
            at -= 1;
        }
        let ghost view = item@;
        proof {
            let part = before.take(at as int);
            if at > 0 {
                assert(part.last() == out@[at - 1]@);
            }
            assert(put_by_change(part, view) == part.push(view));
            assert(part.push(view) + before.skip(at as int) =~= before.insert(at as int, view));
        }
        out.insert(at, item);
        assert(job_views(out@) =~= before.insert(at as int, view));
        i += 1;
        assert(all.take(i as int).drop_last() =~= all.take(i - 1));
        assert(all.take(i as int).last() == view);
    }
    assert(all.take(i as int) =~= all);
    out
}

/// The Jobs with one among them, in place of the one of its identifier.
pub open spec fn with_job(jobs: Seq<JobView>, job: JobView) -> Seq<JobView> {
    let k = slot_of(job_ids(jobs), job.job_id);
    if k < jobs.len() {
        jobs.update(k, job)
    } else {
        jobs.push(job)
    }
}

/// Why a Job that was under way is over.
pub open spec fn restart_reason() -> Seq<char> {
    "daemon restarted before Job completed"@
}

/// A Job as it stands after the program was started again.
pub open spec fn job_restored(job: JobView, now: i128) -> JobView {
    if under_way(job.status) {
        job_logged(interrupted(job, now), now)
    } else {
        job
    }
}

/// A Job that was under way, and is over.
pub open spec fn interrupted(job: JobView, now: i128) -> JobView {
    JobView {
        status: JobStatus::Interrupted,
        approval: None,
        completed_at: Some(now),
        ..job
    }
}

/// The Jobs after one more was found when the program was started again.
pub open spec fn taken_in(s: JobsView, job: JobView, now: i128) -> JobsView {
    JobsView {
        jobs: with_job(s.jobs, job_restored(job, now)),
        queue: if job.status == JobStatus::Queued {
            s.queue.push(job.job_id)
        } else {
            s.queue
        },
        records: if under_way(job.status) {
            s.records.push(
                record_of(
                    interrupted(job, now),
                    change(job.status, JobStatus::Interrupted, Some(restart_reason())),
                    now,
                ),
            )
        } else {
            s.records
        },
        ..s
    }
}

/// The Jobs after the program was started again.
pub open spec fn restored(capacity: usize, source: SessionId, jobs: Seq<JobView>, now: i128) -> JobsView
    decreases jobs.len(),
{
    if jobs.len() == 0 {
        JobsView {
            jobs: Seq::empty(),
            queue: Seq::empty(),
            workers: Seq::empty(),
            approvals: Seq::empty(),
            records: Seq::empty(),
            capacity,
            default_source: source,
        }
    } else {
        taken_in(restored(capacity, source, jobs.drop_last(), now), jobs.last(), now)
    }
}

/// How many Workers there may be.
pub open spec fn capacity_for(max_workers: usize) -> usize {
    if max_workers == 0 {
        DEFAULT_MAX_WORKERS
    } else {
        max_workers
    }
}

/// The first Job in a form that is not known.
pub open spec fn unknown_version(jobs: Seq<JobView>) -> Option<u32>
    decreases jobs.len(),
{
    if jobs.len() == 0 {
        None
    } else if jobs[0].schema_version != JOB_SCHEMA_VERSION {
        Some(jobs[0].schema_version)
    } else {
        unknown_version(jobs.drop_first())
    }
}

/// A Job that can be given to a Worker now: its session's Worker, if there is
/// one, is free.
pub open spec fn is_ready(s: JobsView, id: u128) -> bool {
    job_of(s, id) matches Some(job) && !is_busy(s, job.session_id)
}

/// The first Job in the queue that can be given to a Worker now.
pub open spec fn next_ready(s: JobsView, queue: Seq<u128>) -> Option<u128>
    decreases queue.len(),
{
    if queue.len() == 0 {
        None
    } else if is_ready(s, queue[0]) {
        Some(queue[0])
    } else {
        next_ready(s, queue.drop_first())
    }
}

/// A Job of a session waits in the queue.
pub open spec fn is_awaited(s: JobsView, session: SessionId) -> bool {
    exists|i: int|
        0 <= i < s.queue.len() && (#[trigger] job_of(s, s.queue[i]) matches Some(job)
            && job.session_id == session)
}

/// A Worker that may make room for another: it is free, and no Job of its
/// session waits.
pub open spec fn can_go(s: JobsView, w: Worker) -> bool {
    !w.busy && !is_awaited(s, w.session_id)
}

/// What the scheduler shall do.
#[derive(Debug)]
pub enum Dispatch {
    /// Nothing, for now.
    Idle,
    /// Start a Job: on the Worker of its session, or on a new one, for which
    /// another may first have to go.
    Start {
        job_id: u128,
        session_id: SessionId,
        prompt: String,
        needs_worker: bool,
        evicted: Option<SessionId>,
    },
}

/// The Jobs once one was picked: it has left the queue.
pub open spec fn picked(s: JobsView, id: u128) -> JobsView {
    JobsView { queue: without(s.queue, id), ..s }
}

/// The Jobs once a Worker has gone.
pub open spec fn let_go(s: JobsView, k: int) -> JobsView {
    JobsView { workers: s.workers.remove(k), ..s }
}

/// The outcome of looking for something to do.
pub open spec fn dispatched(old: JobsView, new: JobsView, d: Dispatch) -> bool {
    match next_ready(old, old.queue) {
        None => d is Idle && new == old,
        Some(id) => {
            let job = job_of(old, id)->0;
            let needs = !has_worker(old, job.session_id);
            if needs && old.workers.len() >= old.capacity {
                if forall|k: int| 0 <= k < old.workers.len() ==> !can_go(old, #[trigger] old.workers[k]) {
                    d is Idle && new == old
                } else {
                    exists|k: int|
                        0 <= k < old.workers.len() && can_go(old, #[trigger] old.workers[k]) && new
                            == picked(let_go(old, k), id) && starts(
                            d,
                            job,
                            true,
                            Some(old.workers[k].session_id),
                        )
                }
            } else {
                new == picked(old, id) && starts(d, job, needs, None)
            }
        },
    }
}

/// The scheduler shall start a Job.
pub open spec fn starts(d: Dispatch, job: JobView, needs: bool, gone: Option<SessionId>) -> bool {
    d matches Dispatch::Start { job_id, session_id, prompt, needs_worker, evicted } && job_id
        == job.job_id && session_id == job.session_id && prompt@ == job.prompt && needs_worker
        == needs && evicted == gone
}

/// The Jobs with a Worker for a session, which is free.
pub open spec fn with_worker(s: JobsView, session: SessionId, busy: bool) -> JobsView {
    let k = worker_slot(s, session);
    let w = Worker { session_id: session, busy };
    JobsView {
        workers: if k < s.workers.len() {
            s.workers.update(k, w)
        } else {
            s.workers.push(w)
        },
        ..s
    }
}

/// The outcome of starting a Job.
pub open spec fn started(
    old: JobsView,
    new: JobsView,
    id: u128,
    session: SessionId,
    now: i128,
    error: Option<Seq<char>>,
) -> bool {
    match job_of(old, id) {
        None => error == Some("Job not found"@) && new == old,
        Some(job) => {
            let running = logged(
                old,
                JobView { status: JobStatus::Running, approval: None, ..job },
                change(job.status, JobStatus::Running, None),
                now,
            );
            if has_worker(old, session) {
                error is None && new == with_worker(running, session, true)
            } else {
                error == Some("Worker not found"@) && new == running
            }
        },
    }
}

/// A Job after a report of the agent.
pub open spec fn with_report(job: JobView, event: AgentEventView) -> JobView {
    match event {
        AgentEventView::TextDelta { turn_id: _, message_id: _, chunk, is_final: _ } => JobView {
            output: job.output + chunk,
            ..job
        },
        _ => job,
    }
}

/// What a Job asks, as a request was put.
pub open spec fn approval_for(request: ApprovalRequest) -> ApprovalView {
    ApprovalView {
        request_id: request.request_id@,
        call_id: request.call_id@,
        tool_name: request.tool_name@,
        arguments: request.arguments@,
    }
}

/// The Jobs after one of them asked the user something.
pub open spec fn asked(s: JobsView, job: JobView, approval: ApprovalView, now: i128) -> JobsView {
    let waiting = JobView { status: JobStatus::WaitingApproval, ..job };
    let first = logged(
        JobsView { approvals: with_value(s.approvals, job.job_id), ..s },
        waiting,
        change(
            job.status,
            JobStatus::WaitingApproval,
            Some("approval required for "@ + approval.tool_name),
        ),
        now,
    );
    logged(
        first,
        JobView { approval: Some(approval), ..job_logged(waiting, now) },
        JobEventView::ApprovalRequired(approval),
        now,
    )
}

/// How a Worker's turn ended.
pub open spec fn turn_result(r: Result<AgentDiagnostics, String>) -> Result<
    AgentDiagnostics,
    Seq<char>,
> {
    match r {
        Ok(d) => Ok(d),
        Err(m) => Err(m@),
    }
}

/// A Job whose turn has ended.
pub open spec fn job_ended(
    job: JobView,
    result: Result<AgentDiagnostics, Seq<char>>,
    output: Seq<char>,
    cancelled: bool,
    now: i128,
) -> JobView {
    let ended = JobView { output, approval: None, completed_at: Some(now), ..job };
    match result {
        Ok(d) => JobView {
            status: if cancelled {
                JobStatus::Cancelled
            } else {
                JobStatus::Completed
            },
            diagnostics: Some(d),
            ..ended
        },
        Err(m) => JobView {
            status: if cancelled {
                JobStatus::Cancelled
            } else {
                JobStatus::Failed
            },
            error: Some(m),
            ..ended
        },
    }
}

/// The event of a Job whose turn has ended.
pub open spec fn end_event(
    result: Result<AgentDiagnostics, Seq<char>>,
    output: Seq<char>,
    cancelled: bool,
) -> JobEventView {
    match result {
        Ok(d) => if cancelled {
            change(JobStatus::Cancelling, JobStatus::Cancelled, Some("cancelled by user"@))
        } else {
            JobEventView::Completed { output, diagnostics: d }
        },
        Err(m) => if cancelled {
            change(JobStatus::Cancelling, JobStatus::Cancelled, Some(m))
        } else {
            JobEventView::Failed { message: m }
        },
    }
}

/// The Jobs with the Worker of a session free again, and a Job that waits for
/// nothing.
pub open spec fn released(s: JobsView, session: SessionId, id: u128) -> JobsView {
    let freed = if has_worker(s, session) {
        with_worker(s, session, false)
    } else {
        s
    };
    JobsView { approvals: without(freed.approvals, id), ..freed }
}

/// A new Job.
pub open spec fn new_job(
    id: u128,
    source: SessionId,
    session: SessionId,
    workspace: Seq<char>,
    prompt: Seq<char>,
    retry_of: Option<u128>,
    now: i128,
) -> JobView {
    JobView {
        schema_version: JOB_SCHEMA_VERSION,
        job_id: id,
        source_session_id: source,
        session_id: session,
        workspace,
        prompt,
        status: JobStatus::Queued,
        retry_of,
        created_at: now,
        updated_at: now,
        completed_at: None,
        output: Seq::empty(),
        error: None,
        approval: None,
        diagnostics: None,
        last_sequence: 0,
    }
}

/// What has to be done outside when a Job is cancelled.
#[derive(Debug, Clone, Copy, PartialEq, Eq, Structural)]
pub struct Cancellation {
    /// A question that is open is answered with a refusal.
    pub reject_approval: bool,
    /// The Worker of a session is told.
    pub notify: Option<SessionId>,
}

/// The Jobs after one was cancelled, and what has to be done outside; none where
/// it cannot be cancelled.
pub open spec fn cancelled(s: JobsView, job: JobView, now: i128) -> Option<(JobsView, Cancellation)> {
    let tell = if has_worker(s, job.session_id) {
        Some(job.session_id)
    } else {
        None
    };
    let asking = Some("cancellation requested"@);
    match job.status {
        JobStatus::Queued => Some(
            (
                logged(
                    JobsView { queue: without(s.queue, job.job_id), ..s },
                    JobView { status: JobStatus::Cancelled, completed_at: Some(now), ..job },
                    change(JobStatus::Queued, JobStatus::Cancelled, Some("cancelled by user"@)),
                    now,
                ),
                Cancellation { reject_approval: false, notify: None },
            ),
        ),
        JobStatus::WaitingApproval => Some(
            (
                logged(
                    JobsView { approvals: without(s.approvals, job.job_id), ..s },
                    JobView { status: JobStatus::Cancelling, ..job },
                    change(JobStatus::WaitingApproval, JobStatus::Cancelling, asking),
                    now,
                ),
                Cancellation {
                    reject_approval: s.approvals.contains(job.job_id),
                    notify: tell,
                },
            ),
        ),
        JobStatus::Running => Some(
            (
                logged(
                    s,
                    JobView { status: JobStatus::Cancelling, ..job },
                    change(JobStatus::Running, JobStatus::Cancelling, asking),
                    now,
                ),
                Cancellation { reject_approval: false, notify: tell },
            ),
        ),
        JobStatus::Cancelling => Some(
            (s, Cancellation { reject_approval: false, notify: None }),
        ),
        _ => None,
    }
}

/// The Job may be tried again.
pub open spec fn can_retry(s: JobStatus) -> bool {
    s == JobStatus::Failed || s == JobStatus::Interrupted || s == JobStatus::Cancelled
}

/// How many Workers are at work.
pub open spec fn busy_count(workers: Seq<Worker>) -> nat
    decreases workers.len(),
{
    if workers.len() == 0 {
        0
    } else if workers.last().busy {
        busy_count(workers.drop_last()) + 1
    } else {
        busy_count(workers.drop_last())
    }
}

/// How many Jobs wait in the queue.
pub open spec fn queued_count(jobs: Seq<JobView>) -> nat
    decreases jobs.len(),
{
    if jobs.len() == 0 {
        0
    } else if jobs.last().status == JobStatus::Queued {
        queued_count(jobs.drop_last()) + 1
    } else {
        queued_count(jobs.drop_last())
    }
}

proof fn lemma_counts(workers: Seq<Worker>, jobs: Seq<JobView>)
    ensures
        busy_count(workers) <= workers.len(),
        queued_count(jobs) <= jobs.len(),
    decreases workers.len() + jobs.len(),
{
    if workers.len() > 0 {
        lemma_counts(workers.drop_last(), jobs);
    }
    if jobs.len() > 0 {
        lemma_counts(workers, jobs.drop_last());
    }
}

/// How the Jobs stand as a whole.
#[derive(Debug)]
pub struct JobDaemonStatus {
    pub generation: u128,
    pub capacity: usize,
    pub running: usize,
    pub queued: usize,
    pub jobs: Vec<JobSummary>,
}

/// The message of an outcome.
pub open spec fn refusal<T>(r: Result<T, Error>) -> Option<Seq<char>> {
    match r {
        Ok(_) => None,
        Err(e) => Some(e@),
    }
}

/// The message that a Job is not there.
pub open spec fn not_found(id: u128) -> Seq<char> {
    "Job "@ + hyphenated(id) + " was not found"@
}

/// The message that something cannot be done to a Job as it stands.
pub open spec fn cannot(id: u128, what: Seq<char>, status: JobStatus) -> Seq<char> {
    "Job "@ + hyphenated(id) + " cannot be "@ + what + " from "@ + status_name(status)
}

fn about_job(id: u128, rest: &str) -> (r: Error)
    ensures
        r@ == "Job "@ + hyphenated(id) + rest@,
{
    crate::error::fail_about("Job ", uuid_text(id).as_str(), rest)
}

fn cannot_do(id: u128, what: &str, status: JobStatus) -> (r: Error)
    ensures
        r@ == cannot(id, what@, status),
{
    let mut rest: String = " cannot be ".to_owned();
    rest.append(what);
    rest.append(" from ");
    rest.append(status.name());
    let out = about_job(id, rest.as_str());
    assert(out@ =~= cannot(id, what@, status));
    out
}

fn copy_jobs(jobs: &Vec<JobSummary>) -> (r: Vec<JobSummary>)
    ensures
        job_views(r@) == job_views(jobs@),
{
    let mut out: Vec<JobSummary> = Vec::new();
    let ghost all = job_views(jobs@);
    let mut i: usize = 0;
    while i < jobs.len()
        invariant
            i <= jobs.len(),
            all == job_views(jobs@),
            job_views(out@) == all.take(i as int),
        decreases jobs.len() - i,
    {
        let job = jobs[i].clone();
        assert(job_views(out@.push(job)) =~= job_views(out@).push(job@));
        out.push(job);
        i += 1;
        assert(all.take(i as int) =~= all.take(i - 1).push(all[i - 1]));
    }
    assert(all.take(i as int) =~= all);
    out
}

impl JobManager {
    /// What holds of the Jobs at all times.
    pub closed spec fn wf(&self) -> bool {
        sound(self@)
    }

    /// The view of the Jobs is sound.
    pub proof fn lemma_wf(&self)
        requires
            self.wf(),
        ensures
            sound(self@),
    {
    }

    /// The Jobs that were found when the program was started. Those that were
    /// under way are over, and those that waited wait again, the oldest first.
    pub fn new(
        max_workers: usize,
        default_source: SessionId,
        summaries: Vec<JobSummary>,
        now: i128,
    ) -> (r: Result<Self, Error>)
        ensures
            match unknown_version(job_views(summaries@)) {
                Some(version) => r matches Err(e) && e@ == "unsupported Job schema version "@
                    + decimal(version as nat),
                None => r matches Ok(m) && m.wf() && m@ == restored(
                    capacity_for(max_workers),
                    default_source,
                    by_creation(job_views(summaries@)),
                    now,
                ),
            },
    {
        let ghost all = job_views(summaries@);
        let mut i: usize = 0;
        assert(all.skip(0) =~= all);
        while i < summaries.len()
            invariant
                i <= summaries.len(),
                all == job_views(summaries@),
                unknown_version(all) == unknown_version(all.skip(i as int)),
            decreases summaries.len() - i,
        {
            assert(all.skip(i as int)[0] == summaries@[i as int]@);
            assert(all.skip(i as int).drop_first() =~= all.skip(i + 1));
            if summaries[i].schema_version != JOB_SCHEMA_VERSION {
                return Err(
                    fail_with(
                        "unsupported Job schema version ",
                        decimal_of(summaries[i].schema_version as u64).as_str(),
                    ),
                );
            }
            i += 1;
        }
        let sorted = sort_by_creation(&summaries);
        let capacity: usize = if max_workers == 0 {
            DEFAULT_MAX_WORKERS
        } else {
            max_workers
        };
        let mut manager = JobManager {
            jobs: Vec::new(),
            queue: Vec::new(),
            workers: Vec::new(),
            approvals: Vec::new(),
            records: Vec::new(),
            capacity,
            default_source,
        };
        let ghost list = job_views(sorted@);
        assert(manager@ =~= restored(capacity, default_source, list.take(0), now));
        let mut k: usize = 0;
        while k < sorted.len()
            invariant
                k <= sorted.len(),
                list == job_views(sorted@),
                manager.wf(),
                manager@ == restored(capacity, default_source, list.take(k as int), now),
            decreases sorted.len() - k,
        {
            manager.take_in(sorted[k].clone(), now);
            k += 1;
            assert(list.take(k as int).drop_last() =~= list.take(k - 1));
            assert(list.take(k as int).last() == sorted@[k - 1]@);
        }
        assert(list.take(k as int) =~= list);
        Ok(manager)
    }

    /// Takes in a Job that was found when the program was started.
    fn take_in(&mut self, job: JobSummary, now: i128)
        requires
            old(self).wf(),
        ensures
            final(self).wf(),
            final(self)@ == taken_in(old(self)@, job@, now),
    {
        let ghost given = job@;
        let mut job = job;
        if job.status.is_under_way() {
            let from = job.status;
            job.status = JobStatus::Interrupted;
            job.approval = None;
            job.completed_at = Some(now);
            assert(job@ =~= interrupted(given, now));
            let event = JobEvent::StateChanged {
                from: Some(from),
                to: JobStatus::Interrupted,
                reason: Some("daemon restarted before Job completed".to_owned()),
            };
            self.note(&mut job, event, now);
        }
        if job.status == JobStatus::Queued {
            self.queue.push(job.job_id);
        }
        assert(job@ =~= job_restored(given, now));
        self.put(job);
        assert(self@ =~= taken_in(old(self)@, given, now));
    }

    /// Puts an event into the log of a Job.
    fn note(&mut self, job: &mut JobSummary, event: JobEvent, now: i128)
        ensures
            final(job)@ == job_logged(old(job)@, now),
            final(self)@ == (JobsView {
                records: old(self)@.records.push(record_of(old(job)@, event@, now)),
                ..old(self)@
            }),
            old(self).wf() ==> final(self).wf(),
    {
        let sequence: u64 = job.last_sequence.saturating_add(1);
        let notification = JobEventNotification {
            job_id: job.job_id,
            record: JobEventRecord {
                schema_version: JOB_SCHEMA_VERSION,
                sequence,
                timestamp: now,
                event,
            },
        };
        let ghost view = notification@;
        job.last_sequence = sequence;
        job.updated_at = now;
        self.records.push(notification);
        assert(self@.records =~= old(self)@.records.push(view));
        assert(self@ =~= JobsView { records: old(self)@.records.push(view), ..old(self)@ });
    }

    /// Keeps a Job, in place of the one of its identifier.
    fn put(&mut self, job: JobSummary)
        requires
            old(self).wf(),
        ensures
            final(self).wf(),
            final(self)@ == (JobsView { jobs: with_job(old(self)@.jobs, job@), ..old(self)@ }),
    {
        let ghost before = self@.jobs;
        let ghost ids = job_ids(before);
        let ghost view = job@;
        proof {
            lemma_slot(ids, job.job_id);
        }
        match self.slot(job.job_id) {
            Some(k) => {
                self.jobs.set(k, job);
                assert(self@.jobs =~= before.update(k as int, view));
                assert(job_ids(self@.jobs) =~= ids);
            },
            None => {
                self.jobs.push(job);
                assert(self@.jobs =~= before.push(view));
                assert(job_ids(self@.jobs) =~= ids.push(view.job_id));
                proof {
                    lemma_no_dup_push(ids, view.job_id);
                }
            },
        }
        assert(self@ =~= JobsView { jobs: with_job(before, view), ..old(self)@ });
    }

    /// Where a Job stands.
    fn slot(&self, id: u128) -> (r: Option<usize>)
        ensures
            match r {
                Some(k) => k == job_slot(self@, id) && k < self.jobs@.len() && self@.jobs[k as int].job_id
                    == id,
                None => job_slot(self@, id) == self@.jobs.len(),
            },
    {
        let ghost ids = job_ids(self@.jobs);
        let mut i: usize = 0;
        while i < self.jobs.len()
            invariant
                i <= self.jobs.len(),
                ids == job_ids(job_views(self.jobs@)),
                forall|j: int| 0 <= j < i ==> ids[j] != id,
            decreases self.jobs.len() - i,
        {
            if self.jobs[i].job_id == id {
                proof {
                    assert(ids[i as int] == id);
                    lemma_slot_is(ids, id, i as int);
                }
                return Some(i);
            }
            assert(ids[i as int] != id);
            i += 1;
        }
        proof {
            lemma_slot_is(ids, id, i as int);
        }
        None
    }

    /// Where a session's Worker stands.
    fn worker_at(&self, session: SessionId) -> (r: Option<usize>)
        ensures
            match r {
                Some(k) => k == worker_slot(self@, session) && k < self.workers@.len()
                    && self@.workers[k as int].session_id == session && has_worker(self@, session),
                None => worker_slot(self@, session) == self@.workers.len() && !has_worker(
                    self@,
                    session,
                ),
            },
    {
        let ghost sessions = worker_sessions(self@.workers);
        let mut i: usize = 0;
        while i < self.workers.len()
            invariant
                i <= self.workers.len(),
                sessions == worker_sessions(self.workers@),
                forall|j: int| 0 <= j < i ==> sessions[j] != session,
            decreases self.workers.len() - i,
        {
            if self.workers[i].session_id == session {
                proof {
                    assert(sessions[i as int] == session);
                    lemma_slot_is(sessions, session, i as int);
                }
                return Some(i);
            }
            assert(sessions[i as int] != session);
            i += 1;
        }
        proof {
            lemma_slot_is(sessions, session, i as int);
        }
        None
    }

    /// Lets a Job become another, and puts an event into its log.
    fn log(&mut self, job: JobSummary, event: JobEvent, now: i128)
        requires
            old(self).wf(),
            job_of(old(self)@, job.job_id) is Some,
        ensures
            final(self).wf(),
            final(self)@ == logged(old(self)@, job@, event@, now),
    {
        let ghost before = self@;
        let ghost given = job@;
        let ghost said = event@;
        let mut job = job;
        self.note(&mut job, event, now);
        proof {
            lemma_slot(job_ids(before.jobs), given.job_id);
        }
        self.put(job);
        assert(self@ =~= logged(before, given, said, now));
    }

    /// Sets how a session's Worker stands, and makes it where there is none.
    fn set_worker(&mut self, session: SessionId, busy: bool)
        requires
            old(self).wf(),
        ensures
            final(self).wf(),
            final(self)@ == with_worker(old(self)@, session, busy),
    {
        let ghost before = self@;
        let ghost sessions = worker_sessions(before.workers);
        let worker = Worker { session_id: session, busy };
        proof {
            lemma_slot(sessions, session);
        }
        match self.worker_at(session) {
            Some(k) => {
                self.workers.set(k, worker);
                assert(worker_sessions(self@.workers) =~= sessions);
            },
            None => {
                self.workers.push(worker);
                assert(worker_sessions(self@.workers) =~= sessions.push(session));
                proof {
                    lemma_no_dup_push(sessions, session);
                }
            },
        }
        assert(self@ =~= with_worker(before, session, busy));
    }

    /// Hands out the records that are still to be written and published.
    pub fn take_records(&mut self) -> (r: Vec<JobEventNotification>)
        requires
            old(self).wf(),
        ensures
            notification_views(r@) == old(self)@.records,
            final(self)@ == (JobsView { records: Seq::empty(), ..old(self)@ }),
            final(self).wf(),
    {
        let mut out: Vec<JobEventNotification> = Vec::new();
        out.append(&mut self.records);
        assert(notification_views(out@) =~= old(self)@.records);
        assert(self@ =~= JobsView { records: Seq::empty(), ..old(self)@ });
        out
    }

    /// Whether a Job can be given to a Worker now.
    fn ready(&self, id: u128) -> (r: bool)
        ensures
            r == is_ready(self@, id),
    {
        match self.slot(id) {
            None => false,
            Some(k) => {
                let session = self.jobs[k].session_id;
                match self.worker_at(session) {
                    None => true,
                    Some(w) => !self.workers[w].busy,
                }
            },
        }
    }

    /// Whether a Job of a session waits in the queue.
    fn awaited(&self, session: SessionId) -> (r: bool)
        ensures
            r == is_awaited(self@, session),
    {
        let mut i: usize = 0;
        while i < self.queue.len()
            invariant
                i <= self.queue.len(),
                forall|j: int|
                    0 <= j < i ==> !(#[trigger] job_of(self@, self@.queue[j]) matches Some(job)
                        && job.session_id == session),
            decreases self.queue.len() - i,
        {
            match self.slot(self.queue[i]) {
                Some(k) => {
                    if self.jobs[k].session_id == session {
                        assert(job_of(self@, self@.queue[i as int]) is Some);
                        return true;
                    }
                },
                None => {},
            }
            i += 1;
        }
        false
    }

    /// Looks for something to do: the first Job in the queue whose session's
    /// Worker is free is started; where it needs a new Worker and there may be
    /// no more, one that is free and not awaited goes.
    pub fn next_dispatch(&mut self) -> (r: Dispatch)
        requires
            old(self).wf(),
        ensures
            final(self).wf(),
            dispatched(old(self)@, final(self)@, r),
    {
        let ghost before = self@;
        let mut found: Option<usize> = None;
        let mut i: usize = 0;
        assert(before.queue.skip(0) =~= before.queue);
        while i < self.queue.len() && found.is_none()
            invariant
                i <= self.queue.len(),
                self@ == before,
                found is None ==> next_ready(before, before.queue) == next_ready(
                    before,
                    before.queue.skip(i as int),
                ),
                found matches Some(k) ==> k < self.queue.len() && next_ready(before, before.queue)
                    == Some(before.queue[k as int]) && is_ready(before, before.queue[k as int]),
            decreases self.queue.len() - i,
        {
            proof {
                assert(before.queue.skip(i as int)[0] == before.queue[i as int]);
                assert(before.queue.skip(i as int).drop_first() =~= before.queue.skip(i + 1));
            }
            if self.ready(self.queue[i]) {
                found = Some(i);
            }
            i += 1;
        }
        let at = match found {
            Some(at) => at,
            None => {
                assert(before.queue.skip(i as int).len() == 0);
                return Dispatch::Idle;
            },
        };
        let id = self.queue[at];
        let k = match self.slot(id) {
            Some(k) => k,
            None => {
                return Dispatch::Idle;
            },
        };
        let session = self.jobs[k].session_id;
        let prompt = self.jobs[k].prompt.clone();
        let ghost job = before.jobs[k as int];
        let needs_worker = self.worker_at(session).is_none();
        let mut evicted: Option<SessionId> = None;
        if needs_worker && self.workers.len() >= self.capacity {
            let gone = match self.first_to_go() {
                Some(gone) => gone,
                None => {
                    return Dispatch::Idle;
                },
            };
            evicted = Some(self.workers[gone].session_id);
            let _worker = self.workers.remove(gone);
            self.queue = drop_value(&self.queue, id);
            proof {
                lemma_no_dup_remove(worker_sessions(before.workers), gone as int);
                assert(worker_sessions(self@.workers) =~= worker_sessions(before.workers).remove(
                    gone as int,
                ));
                assert(self@ =~= picked(let_go(before, gone as int), id));
                assert(can_go(before, before.workers[gone as int]));
            }
            return Dispatch::Start {
                job_id: id,
                session_id: session,
                prompt,
                needs_worker,
                evicted,
            };
        }
        self.queue = drop_value(&self.queue, id);
        assert(self@ =~= picked(before, id));
        Dispatch::Start { job_id: id, session_id: session, prompt, needs_worker, evicted }
    }

    /// The first Worker that may make room for another.
    fn first_to_go(&self) -> (r: Option<usize>)
        ensures
            match r {
                Some(k) => k < self@.workers.len() && can_go(self@, self@.workers[k as int]),
                None => forall|k: int|
                    0 <= k < self@.workers.len() ==> !can_go(self@, #[trigger] self@.workers[k]),
            },
    {
        let mut i: usize = 0;
        while i < self.workers.len()
            invariant
                i <= self.workers.len(),
                forall|k: int| 0 <= k < i ==> !can_go(self@, #[trigger] self@.workers[k]),
            decreases self.workers.len() - i,
        {
            if !self.workers[i].busy && !self.awaited(self.workers[i].session_id) {
                return Some(i);
            }
            i += 1;
        }
        None
    }

    /// Takes in that a Worker for a session was made.
    pub fn worker_created(&mut self, session: SessionId)
        requires
            old(self).wf(),
        ensures
            final(self).wf(),
            final(self)@ == with_worker(old(self)@, session, false),
    {
        self.set_worker(session, false)
    }

    /// Starts a Job on the Worker of a session.
    pub fn start_job(&mut self, id: u128, session: SessionId, now: i128) -> (r: Result<(), Error>)
        requires
            old(self).wf(),
        ensures
            final(self).wf(),
            started(old(self)@, final(self)@, id, session, now, refusal(r)),
    {
        let ghost before = self@;
        let k = match self.slot(id) {
            Some(k) => k,
            None => {
                return Err(fail("Job not found"));
            },
        };
        let mut job = self.jobs[k].clone();
        let from = job.status;
        job.status = JobStatus::Running;
        job.approval = None;
        assert(job@ =~= JobView {
            status: JobStatus::Running,
            approval: None,
            ..before.jobs[k as int]
        });
        self.log(
            job,
            JobEvent::StateChanged { from: Some(from), to: JobStatus::Running, reason: None },
            now,
        );
        match self.worker_at(session) {
            Some(_) => {
                self.set_worker(session, true);
                Ok(())
            },
            None => Err(fail("Worker not found")),
        }
    }

    /// Takes in a report of the agent that works on a Job.
    pub fn record_agent_event(&mut self, id: u128, event: AgentEvent, now: i128) -> (r: Result<
        (),
        Error,
    >)
        requires
            old(self).wf(),
        ensures
            final(self).wf(),
            match job_of(old(self)@, id) {
                None => r matches Err(e) && e@ == "Job not found"@ && final(self)@ == old(self)@,
                Some(job) => r is Ok && final(self)@ == logged(
                    old(self)@,
                    with_report(job, event@),
                    JobEventView::Agent(event@),
                    now,
                ),
            },
    {
        let k = match self.slot(id) {
            Some(k) => k,
            None => {
                return Err(fail("Job not found"));
            },
        };
        let mut job = self.jobs[k].clone();
        let ghost was = job@;
        match &event {
            AgentEvent::TextDelta { turn_id: _, message_id: _, chunk, is_final: _ } => {
                job.output.append(chunk.as_str());
            },
            _ => {},
        }
        assert(job@ =~= with_report(was, event@));
        self.log(job, JobEvent::Agent(event), now);
        Ok(())
    }

    /// Takes in that a Job asks the user something.
    pub fn record_approval(&mut self, id: u128, request: ApprovalRequest, now: i128) -> (r: Result<
        (),
        Error,
    >)
        requires
            old(self).wf(),
        ensures
            final(self).wf(),
            match job_of(old(self)@, id) {
                None => r matches Err(e) && e@ == "Job not found"@ && final(self)@ == (JobsView {
                    approvals: with_value(old(self)@.approvals, id),
                    ..old(self)@
                }),
                Some(job) => r is Ok && final(self)@ == asked(
                    old(self)@,
                    job,
                    approval_for(request),
                    now,
                ),
            },
    {
        let ghost before = self@;
        let mut approvals = drop_value(&self.approvals, id);
        approvals.push(id);
        self.approvals = approvals;
        assert(self@ =~= JobsView { approvals: with_value(before.approvals, id), ..before });
        let k = match self.slot(id) {
            Some(k) => k,
            None => {
                return Err(fail("Job not found"));
            },
        };
        let approval = JobApproval {
            request_id: request.request_id,
            call_id: request.call_id,
            tool_name: request.tool_name,
            arguments: request.arguments,
        };
        let ghost job0 = before.jobs[k as int];
        let mut job = self.jobs[k].clone();
        let from = job.status;
        job.status = JobStatus::WaitingApproval;
        let mut reason: String = "approval required for ".to_owned();
        reason.append(approval.tool_name.as_str());
        let ghost waiting = JobView { status: JobStatus::WaitingApproval, ..job0 };
        assert(job@ =~= waiting);
        self.log(
            job,
            JobEvent::StateChanged {
                from: Some(from),
                to: JobStatus::WaitingApproval,
                reason: Some(reason),
            },
            now,
        );
        proof {
            let ids = job_ids(before.jobs);
            assert(job_ids(self@.jobs) =~= ids);
            lemma_slot(ids, id);
        }
        let mut job = self.jobs[k].clone();
        assert(job@ == job_logged(waiting, now));
        job.approval = Some(approval.clone());
        assert(job@ =~= JobView { approval: Some(approval@), ..job_logged(waiting, now) });
        self.log(job, JobEvent::ApprovalRequired(approval), now);
        Ok(())
    }

    /// Takes in that a Worker's turn has ended: how, and what it put out.
    pub fn finish_job(
        &mut self,
        id: u128,
        result: Result<AgentDiagnostics, String>,
        output: String,
        cancelled: bool,
        now: i128,
    ) -> (r: Result<(), Error>)
        requires
            old(self).wf(),
        ensures
            final(self).wf(),
            match job_of(old(self)@, id) {
                None => r matches Err(e) && e@ == "Job not found"@ && final(self)@ == old(self)@,
                Some(job) => r is Ok && final(self)@ == released(
                    logged(
                        old(self)@,
                        job_ended(job, turn_result(result), output@, cancelled, now),
                        end_event(turn_result(result), output@, cancelled),
                        now,
                    ),
                    job.session_id,
                    id,
                ),
            },
    {
        let ghost before = self@;
        let k = match self.slot(id) {
            Some(k) => k,
            None => {
                return Err(fail("Job not found"));
            },
        };
        let ghost was = before.jobs[k as int];
        let ghost given = turn_result(result);
        let ghost said = output@;
        let mut job = self.jobs[k].clone();
        let session = job.session_id;
        job.output = output.clone();
        job.approval = None;
        job.completed_at = Some(now);
        let event = match result {
            Ok(diagnostics) => {
                job.diagnostics = Some(diagnostics.clone());
                if cancelled {
                    job.status = JobStatus::Cancelled;
                    JobEvent::StateChanged {
                        from: Some(JobStatus::Cancelling),
                        to: JobStatus::Cancelled,
                        reason: Some("cancelled by user".to_owned()),
                    }
                } else {
                    job.status = JobStatus::Completed;
                    JobEvent::Completed { output, diagnostics }
                }
            },
            Err(message) => {
                job.error = Some(message.clone());
                if cancelled {
                    job.status = JobStatus::Cancelled;
                    JobEvent::StateChanged {
                        from: Some(JobStatus::Cancelling),
                        to: JobStatus::Cancelled,
                        reason: Some(message),
                    }
                } else {
                    job.status = JobStatus::Failed;
                    JobEvent::Failed { message }
                }
            },
        };
        assert(job@ =~= job_ended(was, given, said, cancelled, now));
        assert(event@ == end_event(given, said, cancelled));
        self.log(job, event, now);
        let ghost mid = self@;
        match self.worker_at(session) {
            Some(_) => {
                self.set_worker(session, false);
            },
            None => {},
        }
        let ghost freed = self@;
        self.approvals = drop_value(&self.approvals, id);
        assert(self@ =~= JobsView { approvals: without(freed.approvals, id), ..freed });
        assert(self@ =~= released(mid, session, id));
        Ok(())
    }

    /// Takes in that no Worker could be made for a Job.
    pub fn finish_failed(&mut self, id: u128, message: String, now: i128) -> (r: Result<(), Error>)
        requires
            old(self).wf(),
        ensures
            final(self).wf(),
            match job_of(old(self)@, id) {
                None => r matches Err(e) && e@ == "Job not found"@ && final(self)@ == old(self)@,
                Some(job) => r is Ok && final(self)@ == logged(
                    old(self)@,
                    JobView {
                        status: JobStatus::Failed,
                        error: Some(message@),
                        completed_at: Some(now),
                        ..job
                    },
                    JobEventView::Failed { message: message@ },
                    now,
                ),
            },
    {
        let k = match self.slot(id) {
            Some(k) => k,
            None => {
                return Err(fail("Job not found"));
            },
        };
        let mut job = self.jobs[k].clone();
        let ghost was = job@;
        job.status = JobStatus::Failed;
        job.error = Some(message.clone());
        job.completed_at = Some(now);
        assert(job@ =~= JobView {
            status: JobStatus::Failed,
            error: Some(message@),
            completed_at: Some(now),
            ..was
        });
        self.log(job, JobEvent::Failed { message }, now);
        Ok(())
    }

    /// The session that a new Job starts from.
    pub fn source_for(&self, source: Option<SessionId>, prompt: &str) -> (r: Result<
        SessionId,
        Error,
    >)
        ensures
            if blank(prompt@) {
                r matches Err(e) && e@ == "Job prompt cannot be empty"@
            } else {
                r == Ok::<SessionId, Error>(
                    match source {
                        Some(id) => id,
                        None => self@.default_source,
                    },
                )
            },
    {
        if is_blank(prompt) {
            return Err(fail("Job prompt cannot be empty"));
        }
        Ok(
            match source {
                Some(id) => id,
                None => self.default_source,
            },
        )
    }

    /// The session that a new Job works on, where it is another try of an
    /// earlier one; none where it gets one of its own.
    pub fn session_for(&self, retry_of: Option<u128>) -> (r: Result<Option<SessionId>, Error>)
        ensures
            match retry_of {
                None => r == Ok::<Option<SessionId>, Error>(None),
                Some(id) => match job_of(self@, id) {
                    Some(job) => r == Ok::<Option<SessionId>, Error>(Some(job.session_id)),
                    None => r matches Err(e) && e@ == not_found(id),
                },
            },
    {
        match retry_of {
            None => Ok(None),
            Some(id) => match self.get_summary(id) {
                Ok(job) => Ok(Some(job.session_id)),
                Err(e) => Err(e),
            },
        }
    }

    /// Takes a new Job in: it is logged, and waits in the queue.
    pub fn submit(
        &mut self,
        id: u128,
        source: SessionId,
        session: SessionId,
        workspace: String,
        prompt: String,
        retry_of: Option<u128>,
        now: i128,
    ) -> (r: JobSummary)
        requires
            old(self).wf(),
        ensures
            final(self).wf(),
            ({
                let job = new_job(id, source, session, workspace@, prompt@, retry_of, now);
                &&& r@ == job_logged(job, now)
                &&& final(self)@ == (JobsView {
                    jobs: with_job(old(self)@.jobs, job_logged(job, now)),
                    queue: old(self)@.queue.push(id),
                    records: old(self)@.records.push(
                        record_of(
                            job,
                            JobEventView::StateChanged {
                                from: None,
                                to: JobStatus::Queued,
                                reason: None,
                            },
                            now,
                        ),
                    ),
                    ..old(self)@
                })
            }),
    {
        let ghost before = self@;
        let ghost fresh = new_job(id, source, session, workspace@, prompt@, retry_of, now);
        let mut job = JobSummary {
            schema_version: JOB_SCHEMA_VERSION,
            job_id: id,
            source_session_id: source,
            session_id: session,
            workspace,
            prompt,
            status: JobStatus::Queued,
            retry_of,
            created_at: now,
            updated_at: now,
            completed_at: None,
            output: String::new(),
            error: None,
            approval: None,
            diagnostics: None,
            last_sequence: 0,
        };
        assert(job@ =~= fresh);
        self.note(
            &mut job,
            JobEvent::StateChanged { from: None, to: JobStatus::Queued, reason: None },
            now,
        );
        self.queue.push(id);
        let copy = job.clone();
        self.put(job);
        assert(self@.queue =~= before.queue.push(id));
        copy
    }

    /// All Jobs, from the one that changed last on.
    pub fn list(&self) -> (r: Vec<JobSummary>)
        ensures
            job_views(r@) == by_change(self@.jobs),
    {
        sort_by_change(&self.jobs)
    }

    /// A Job.
    pub fn get_summary(&self, id: u128) -> (r: Result<JobSummary, Error>)
        ensures
            match job_of(self@, id) {
                Some(job) => r matches Ok(j) && j@ == job,
                None => r matches Err(e) && e@ == not_found(id),
            },
    {
        match self.slot(id) {
            Some(k) => Ok(self.jobs[k].clone()),
            None => {
                let e = about_job(id, " was not found");
                assert(e@ =~= not_found(id));
                Err(e)
            },
        }
    }

    /// Cancels a Job. One that waits in the queue is over at once; one that is
    /// under way is over when its Worker's turn has ended.
    pub fn cancel(&mut self, id: u128, now: i128) -> (r: Result<Cancellation, Error>)
        requires
            old(self).wf(),
        ensures
            final(self).wf(),
            match job_of(old(self)@, id) {
                None => r matches Err(e) && e@ == "Job not found"@ && final(self)@ == old(self)@,
                Some(job) => match cancelled(old(self)@, job, now) {
                    Some(outcome) => r == Ok::<Cancellation, Error>(outcome.1) && final(self)@
                        == outcome.0,
                    None => r matches Err(e) && e@ == cannot(id, "cancelled"@, job.status)
                        && final(self)@ == old(self)@,
                },
            },
    {
        let ghost before = self@;
        let k = match self.slot(id) {
            Some(k) => k,
            None => {
                return Err(fail("Job not found"));
            },
        };
        let ghost was = before.jobs[k as int];
        let mut job = self.jobs[k].clone();
        let session = job.session_id;
        let tell = match self.worker_at(session) {
            Some(_) => Some(session),
            None => None,
        };
        match job.status {
            JobStatus::Queued => {
                self.queue = drop_value(&self.queue, id);
                assert(self@ =~= JobsView { queue: without(before.queue, id), ..before });
                job.status = JobStatus::Cancelled;
                job.completed_at = Some(now);
                assert(job@ =~= JobView {
                    status: JobStatus::Cancelled,
                    completed_at: Some(now),
                    ..was
                });
                self.log(
                    job,
                    JobEvent::StateChanged {
                        from: Some(JobStatus::Queued),
                        to: JobStatus::Cancelled,
                        reason: Some("cancelled by user".to_owned()),
                    },
                    now,
                );
                Ok(Cancellation { reject_approval: false, notify: None })
            },
            JobStatus::WaitingApproval => {
                let open = self.awaits_approval(id);
                self.approvals = drop_value(&self.approvals, id);
                assert(self@ =~= JobsView { approvals: without(before.approvals, id), ..before });
                job.status = JobStatus::Cancelling;
                assert(job@ =~= JobView { status: JobStatus::Cancelling, ..was });
                self.log(
                    job,
                    JobEvent::StateChanged {
                        from: Some(JobStatus::WaitingApproval),
                        to: JobStatus::Cancelling,
                        reason: Some("cancellation requested".to_owned()),
                    },
                    now,
                );
                Ok(Cancellation { reject_approval: open, notify: tell })
            },
            JobStatus::Running => {
                job.status = JobStatus::Cancelling;
                assert(job@ =~= JobView { status: JobStatus::Cancelling, ..was });
                self.log(
                    job,
                    JobEvent::StateChanged {
                        from: Some(JobStatus::Running),
                        to: JobStatus::Cancelling,
                        reason: Some("cancellation requested".to_owned()),
                    },
                    now,
                );
                Ok(Cancellation { reject_approval: false, notify: tell })
            },
            JobStatus::Cancelling => Ok(Cancellation { reject_approval: false, notify: None }),
            _ => Err(cannot_do(id, "cancelled", job.status)),
        }
    }

    /// Whether a question of a Job is open.
    pub fn awaits_approval(&self, id: u128) -> (r: bool)
        ensures
            r == self@.approvals.contains(id),
    {
        let mut i: usize = 0;
        while i < self.approvals.len()
            invariant
                i <= self.approvals.len(),
                forall|j: int| 0 <= j < i ==> self@.approvals[j] != id,
            decreases self.approvals.len() - i,
        {
            if self.approvals[i] == id {
                assert(self@.approvals[i as int] == id);
                return true;
            }
            i += 1;
        }
        false
    }

    /// Takes in that the user answered a Job's question.
    pub fn approve(&mut self, id: u128) -> (r: Result<(), Error>)
        requires
            old(self).wf(),
        ensures
            final(self).wf(),
            if old(self)@.approvals.contains(id) {
                r is Ok && final(self)@ == (JobsView {
                    approvals: without(old(self)@.approvals, id),
                    ..old(self)@
                })
            } else {
                r matches Err(e) && e@ == "Job "@ + hyphenated(id) + " has no pending approval"@
                    && final(self)@ == old(self)@
            },
    {
        if !self.awaits_approval(id) {
            return Err(about_job(id, " has no pending approval"));
        }
        let ghost before = self@;
        self.approvals = drop_value(&self.approvals, id);
        assert(self@ =~= JobsView { approvals: without(before.approvals, id), ..before });
        Ok(())
    }

    /// What another try of a Job starts from: the session and the prompt.
    pub fn retry(&self, id: u128) -> (r: Result<(SessionId, String), Error>)
        ensures
            match job_of(self@, id) {
                None => r matches Err(e) && e@ == not_found(id),
                Some(job) => if can_retry(job.status) {
                    r matches Ok(again) && again.0 == job.source_session_id && again.1@
                        == job.prompt
                } else {
                    r matches Err(e) && e@ == cannot(id, "retried"@, job.status)
                },
            },
    {
        let job = match self.get_summary(id) {
            Ok(job) => job,
            Err(e) => {
                return Err(e);
            },
        };
        match job.status {
            JobStatus::Failed | JobStatus::Interrupted | JobStatus::Cancelled => Ok(
                (job.source_session_id, job.prompt),
            ),
            _ => Err(cannot_do(id, "retried", job.status)),
        }
    }

    /// How the Jobs stand as a whole.
    pub fn daemon_status(&self) -> (r: JobDaemonStatus)
        ensures
            r.generation == 0,
            r.capacity == self@.capacity,
            r.running == busy_count(self@.workers),
            r.queued == queued_count(self@.jobs),
            job_views(r.jobs@) == self@.jobs,
    {
        let ghost jobs = self@.jobs;
        let mut running: usize = 0;
        let mut i: usize = 0;
        assert(self.workers@.take(0) =~= Seq::empty());
        while i < self.workers.len()
            invariant
                i <= self.workers.len(),
                running <= i,
                running == busy_count(self.workers@.take(i as int)),
            decreases self.workers.len() - i,
        {
            assert(self.workers@.take(i + 1).drop_last() =~= self.workers@.take(i as int));
            if self.workers[i].busy {
                running += 1;
            }
            i += 1;
        }
        assert(self.workers@.take(i as int) =~= self.workers@);
        let mut queued: usize = 0;
        let mut k: usize = 0;
        assert(jobs.take(0) =~= Seq::empty());
        while k < self.jobs.len()
            invariant
                k <= self.jobs.len(),
                jobs == job_views(self.jobs@),
                queued <= k,
                queued == queued_count(jobs.take(k as int)),
            decreases self.jobs.len() - k,
        {
            assert(jobs.take(k + 1).drop_last() =~= jobs.take(k as int));
            assert(jobs.take(k + 1).last() == self.jobs@[k as int]@);
            if self.jobs[k].status == JobStatus::Queued {
                queued += 1;
            }
            k += 1;
        }
        assert(jobs.take(k as int) =~= jobs);
        JobDaemonStatus {
            generation: 0,
            capacity: self.capacity,
            running,
            queued,
            jobs: copy_jobs(&self.jobs),
        }
    }

    /// The sessions that have a Worker.
    pub fn worker_list(&self) -> (r: Vec<SessionId>)
        ensures
            r@ == worker_sessions(self@.workers),
    {
        let mut out: Vec<SessionId> = Vec::new();
        let ghost all = worker_sessions(self@.workers);
        let mut i: usize = 0;
        while i < self.workers.len()
            invariant
                i <= self.workers.len(),
                all == worker_sessions(self.workers@),
                out@ == all.take(i as int),
            decreases self.workers.len() - i,
        {
            out.push(self.workers[i].session_id);
            i += 1;
            assert(all.take(i as int) =~= all.take(i - 1).push(all[i - 1]));
        }
        assert(all.take(i as int) =~= all);
        out
    }
}

proof fn lemma_no_dup_push<A>(s: Seq<A>, x: A)
    requires
        s.no_duplicates(),
        slot_of(s, x) == s.len(),
    ensures
        s.push(x).no_duplicates(),
{
    lemma_slot(s, x);
    let t = s.push(x);
    assert forall|i: int, j: int| 0 <= i < t.len() && 0 <= j < t.len() && i != j implies t[i]
        != t[j] by {
        if i < s.len() {
            assert(s.contains(s[i]));
        }
        if j < s.len() {
            assert(s.contains(s[j]));
        }
    }
}

proof fn lemma_no_dup_remove<A>(s: Seq<A>, k: int)
    requires
        s.no_duplicates(),
        0 <= k < s.len(),
    ensures
        s.remove(k).no_duplicates(),
{
    let t = s.remove(k);
    assert forall|i: int, j: int| 0 <= i < t.len() && 0 <= j < t.len() && i != j implies t[i]
        != t[j] by {
        let a = if i < k { i } else { i + 1 };
        let b = if j < k { j } else { j + 1 };
        assert(t[i] == s[a] && t[j] == s[b]);
    }
}

} // verus!
