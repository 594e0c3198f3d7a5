//! What is kept of a Job, and what happens to it.
use crate::agent::diagnostics::AgentDiagnostics;
use crate::agent::event::{AgentEvent, AgentEventView};
use crate::ids::SessionId;
use crate::text::maybe;
use vstd::prelude::*;

verus! {

/// The version of the form in which Jobs are kept.
pub const JOB_SCHEMA_VERSION: u32 = 1;

/// How many Workers there may be, unless something else is said.
pub const DEFAULT_MAX_WORKERS: usize = 4;

/// How a Job stands.
#[derive(Debug, Clone, Copy, PartialEq, Eq, Structural)]
pub enum JobStatus {
    Queued,
    Running,
    WaitingApproval,
    Cancelling,
    Completed,
    Failed,
    Cancelled,
    Interrupted,
}

/// The Job is over.
pub open spec fn over(s: JobStatus) -> bool {
    s == JobStatus::Completed || s == JobStatus::Failed || s == JobStatus::Cancelled || s
        == JobStatus::Interrupted
}

/// The Job is with a Worker.
pub open spec fn under_way(s: JobStatus) -> bool {
    s == JobStatus::Running || s == JobStatus::WaitingApproval || s == JobStatus::Cancelling
}

/// The name of a status.
pub open spec fn status_name(s: JobStatus) -> Seq<char> {
    match s {
        JobStatus::Queued => "Queued"@,
        JobStatus::Running => "Running"@,
        JobStatus::WaitingApproval => "WaitingApproval"@,
        JobStatus::Cancelling => "Cancelling"@,
        JobStatus::Completed => "Completed"@,
        JobStatus::Failed => "Failed"@,
        JobStatus::Cancelled => "Cancelled"@,
        JobStatus::Interrupted => "Interrupted"@,
    }
}

impl JobStatus {
    /// Whether the Job is over.
    pub fn is_terminal(self) -> (r: bool)
        ensures
            r == over(self),
    {
        match self {
            JobStatus::Completed
            | JobStatus::Failed
            | JobStatus::Cancelled
            | JobStatus::Interrupted => true,
            _ => false,
        }
    }

    /// Whether the Job is with a Worker.
    pub fn is_under_way(self) -> (r: bool)
        ensures
            r == under_way(self),
    {
        match self {
            JobStatus::Running | JobStatus::WaitingApproval | JobStatus::Cancelling => true,
            _ => false,
        }
    }

    /// The name of the status.
    pub fn name(self) -> (r: &'static str)
        ensures
            r@ == status_name(self),
    {
        match self {
            JobStatus::Queued => "Queued",
            JobStatus::Running => "Running",
            JobStatus::WaitingApproval => "WaitingApproval",
            JobStatus::Cancelling => "Cancelling",
            JobStatus::Completed => "Completed",
            JobStatus::Failed => "Failed",
            JobStatus::Cancelled => "Cancelled",
            JobStatus::Interrupted => "Interrupted",
        }
    }
}

/// What a Job asks the user; `arguments` is a compact JSON text.
#[derive(Debug)]
pub struct JobApproval {
    pub request_id: String,
    pub call_id: String,
    pub tool_name: String,
    pub arguments: String,
}

/// The view of what a Job asks.
#[verifier::ext_equal]
pub struct ApprovalView {
    pub request_id: Seq<char>,
    pub call_id: Seq<char>,
    pub tool_name: Seq<char>,
    pub arguments: Seq<char>,
}

impl View for JobApproval {
    type V = ApprovalView;

    open spec fn view(&self) -> ApprovalView {
        ApprovalView {
            request_id: self.request_id@,
            call_id: self.call_id@,
            tool_name: self.tool_name@,
            arguments: self.arguments@,
        }
    }
}

impl Clone for JobApproval {
    fn clone(&self) -> (r: Self)
        ensures
            r == *self,
    {
        JobApproval {
            request_id: self.request_id.clone(),
            call_id: self.call_id.clone(),
            tool_name: self.tool_name.clone(),
            arguments: self.arguments.clone(),
        }
    }
}

/// The view of what a Job may ask.
pub open spec fn maybe_approval(a: Option<JobApproval>) -> Option<ApprovalView> {
    match a {
        Some(a) => Some(a@),
        None => None,
    }
}

/// What is kept of a Job. Times are nanoseconds since the epoch.
#[derive(Debug)]
pub struct JobSummary {
    pub schema_version: u32,
    pub job_id: u128,
    pub source_session_id: SessionId,
    pub session_id: SessionId,
    pub workspace: String,
    pub prompt: String,
    pub status: JobStatus,
    pub retry_of: Option<u128>,
    pub created_at: i128,
    pub updated_at: i128,
    pub completed_at: Option<i128>,
    pub output: String,
    pub error: Option<String>,
    pub approval: Option<JobApproval>,
    pub diagnostics: Option<AgentDiagnostics>,
    pub last_sequence: u64,
}

/// The view of a Job.
#[verifier::ext_equal]
pub struct JobView {
    pub schema_version: u32,
    pub job_id: u128,
    pub source_session_id: SessionId,
    pub session_id: SessionId,
    pub workspace: Seq<char>,
    pub prompt: Seq<char>,
    pub status: JobStatus,
    pub retry_of: Option<u128>,
    pub created_at: i128,
    pub updated_at: i128,
    pub completed_at: Option<i128>,
    pub output: Seq<char>,
    pub error: Option<Seq<char>>,
    pub approval: Option<ApprovalView>,
    pub diagnostics: Option<AgentDiagnostics>,
    pub last_sequence: u64,
}

impl View for JobSummary {
    type V = JobView;

    open spec fn view(&self) -> JobView {
        JobView {
            schema_version: self.schema_version,
            job_id: self.job_id,
            source_session_id: self.source_session_id,
            session_id: self.session_id,
            workspace: self.workspace@,
            prompt: self.prompt@,
            status: self.status,
            retry_of: self.retry_of,
            created_at: self.created_at,
            updated_at: self.updated_at,
            completed_at: self.completed_at,
            output: self.output@,
            error: maybe(self.error),
            approval: maybe_approval(self.approval),
            diagnostics: self.diagnostics,
            last_sequence: self.last_sequence,
        }
    }
}

impl Clone for JobSummary {
    fn clone(&self) -> (r: Self)
        ensures
            r@ == self@,
    {
        JobSummary {
            schema_version: self.schema_version,
            job_id: self.job_id,
            source_session_id: self.source_session_id,
            session_id: self.session_id,
            workspace: self.workspace.clone(),
            prompt: self.prompt.clone(),
            status: self.status,
            retry_of: self.retry_of,
            created_at: self.created_at,
            updated_at: self.updated_at,
            completed_at: self.completed_at,
            output: self.output.clone(),
            error: self.error.clone(),
            approval: match &self.approval {
                Some(approval) => Some(approval.clone()),
                None => None,
            },
            diagnostics: match &self.diagnostics {
                Some(diagnostics) => Some(diagnostics.clone()),
                None => None,
            },
            last_sequence: self.last_sequence,
        }
    }
}

/// The views of Jobs.
pub open spec fn job_views(v: Seq<JobSummary>) -> Seq<JobView> {
    v.map_values(|j: JobSummary| j@)
}

/// What happens to a Job.
#[derive(Debug)]
pub enum JobEvent {
    StateChanged { from: Option<JobStatus>, to: JobStatus, reason: Option<String> },
    Agent(AgentEvent),
    ApprovalRequired(JobApproval),
    Completed { output: String, diagnostics: AgentDiagnostics },
    Failed { message: String },
}

/// The view of what happens to a Job.
pub enum JobEventView {
    StateChanged { from: Option<JobStatus>, to: JobStatus, reason: Option<Seq<char>> },
    Agent(AgentEventView),
    ApprovalRequired(ApprovalView),
    Completed { output: Seq<char>, diagnostics: AgentDiagnostics },
    Failed { message: Seq<char> },
}

impl View for JobEvent {
    type V = JobEventView;

    open spec fn view(&self) -> JobEventView {
        match *self {
            JobEvent::StateChanged { from, to, reason } => JobEventView::StateChanged {
                from,
                to,
                reason: maybe(reason),
            },
            JobEvent::Agent(event) => JobEventView::Agent(event@),
            JobEvent::ApprovalRequired(approval) => JobEventView::ApprovalRequired(approval@),
            JobEvent::Completed { output, diagnostics } => JobEventView::Completed {
                output: output@,
                diagnostics,
            },
            JobEvent::Failed { message } => JobEventView::Failed { message: message@ },
        }
    }
}

/// An event with its place in the log of a Job.
#[derive(Debug)]
pub struct JobEventRecord {
    pub schema_version: u32,
    pub sequence: u64,
    pub timestamp: i128,
    pub event: JobEvent,
}

/// A record, and the Job that it is of.
#[derive(Debug)]
pub struct JobEventNotification {
    pub job_id: u128,
    pub record: JobEventRecord,
}

/// The view of a record and its Job.
#[verifier::ext_equal]
pub struct NotificationView {
    pub job_id: u128,
    pub schema_version: u32,
    pub sequence: u64,
    pub timestamp: i128,
    pub event: JobEventView,
}

impl View for JobEventNotification {
    type V = NotificationView;

    open spec fn view(&self) -> NotificationView {
        NotificationView {
            job_id: self.job_id,
            schema_version: self.record.schema_version,
            sequence: self.record.sequence,
            timestamp: self.record.timestamp,
            event: self.record.event@,
        }
    }
}

/// The views of records.
pub open spec fn notification_views(v: Seq<JobEventNotification>) -> Seq<NotificationView> {
    v.map_values(|n: JobEventNotification| n@)
}

/// The records behind a place.
pub open spec fn records_after(records: Seq<JobEventRecord>, after: u64) -> Seq<JobEventRecord> {
    records.filter(|r: JobEventRecord| r.sequence > after)
}

/// The records behind a place, in their order.
pub fn take_records_after(records: Vec<JobEventRecord>, after: u64) -> (r: Vec<JobEventRecord>)
    ensures
        r@ == records_after(records@, after),
{
    let ghost keep = |r: JobEventRecord| r.sequence > after;
    let mut out: Vec<JobEventRecord> = Vec::new();
    assert(records@.take(0).filter(keep) =~= Seq::empty()) by {
        reveal(Seq::filter);
    }
    for record in it: records
        invariant
            it.seq() == records@,
            keep == (|r: JobEventRecord| r.sequence > after),
            out@ == records@.take(it.index() as int).filter(keep),
    {
        let ghost next = records@.take(it.index() + 1);
        assert(next.drop_last() =~= records@.take(it.index() as int));
        assert(next.last() == record);
        proof {
            reveal(Seq::filter);
        }
        if record.sequence > after {
            out.push(record);
        }
        assert(out@ =~= next.filter(keep));
    }
    assert(records@.take(records@.len() as int) =~= records@);
    out
}

} // verus!
