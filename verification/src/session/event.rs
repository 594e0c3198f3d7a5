//! The events of a session log.
use crate::ids::random_uuid;
use crate::session::model::{
    AssistantRecord, CompactionRecord, RunId, RuntimeSnapshot, SessionId, ToolCallRecord,
    ToolResultRecord, TurnFailure, TurnId, UserMessageRecord,
};
use vstd::prelude::*;

verus! {

/// The version of the log's form.
pub const SCHEMA_VERSION: u32 = 1;

/// `time::OffsetDateTime::now_utc`, as nanoseconds since the epoch. Nothing is
/// promised of it.
#[verifier::external_body]
pub(crate) fn now() -> (r: i128) {
    time::OffsetDateTime::now_utc().unix_timestamp_nanos()
}

/// An event with its place in the log. `parent_seq` is the event that it
/// follows; none means the one just before it.
#[derive(Debug)]
pub struct EventEnvelope {
    pub schema_version: u32,
    pub seq: u64,
    pub parent_seq: Option<u64>,
    pub event_id: u128,
    pub session_id: SessionId,
    pub run_id: Option<RunId>,
    pub turn_id: Option<TurnId>,
    pub timestamp: i128,
    pub event: SessionEvent,
}

impl EventEnvelope {
    /// An event that happens now, under a random identifier.
    pub fn new(
        session_id: SessionId,
        seq: u64,
        run_id: Option<RunId>,
        turn_id: Option<TurnId>,
        event: SessionEvent,
    ) -> (r: Self)
        ensures
            r == (EventEnvelope {
                schema_version: SCHEMA_VERSION,
                seq,
                parent_seq: None,
                event_id: r.event_id,
                session_id,
                run_id,
                turn_id,
                timestamp: r.timestamp,
                event,
            }),
    {
        Self::at(session_id, seq, run_id, turn_id, event, random_uuid(), now())
    }

    /// An event with a given identifier and time.
    pub fn at(
        session_id: SessionId,
        seq: u64,
        run_id: Option<RunId>,
        turn_id: Option<TurnId>,
        event: SessionEvent,
        event_id: u128,
        timestamp: i128,
    ) -> (r: Self)
        ensures
            r == (EventEnvelope {
                schema_version: SCHEMA_VERSION,
                seq,
                parent_seq: None,
                event_id,
                session_id,
                run_id,
                turn_id,
                timestamp,
                event,
            }),
    {
        EventEnvelope {
            schema_version: SCHEMA_VERSION,
            seq,
            parent_seq: None,
            event_id,
            session_id,
            run_id,
            turn_id,
            timestamp,
            event,
        }
    }
}

/// What happened.
#[derive(Debug)]
pub enum SessionEvent {
    SessionCreated(SessionCreated),
    RuntimeStarted(RuntimeSnapshot),
    SkillActivated { name: String, source: String, digest: String, order: usize },
    SkillDeactivated { name: String },
    TitleChanged { title: String },
    ModelChanged { model: String, model_id: String },
    TurnStarted(UserMessageRecord),
    AssistantCompleted(AssistantRecord),
    ToolStarted(ToolCallRecord),
    ToolFinished(ToolResultRecord),
    TurnCompleted,
    TurnFailed(TurnFailure),
    TurnCancelled { reason: String },
    TurnInterrupted { reason: String, partial_output: Option<String> },
    ContextReset { new_epoch: u64 },
    ContextCompacted(CompactionRecord),
    SessionForked { parent_session_id: SessionId, through_seq: u64 },
    BranchCreated { branch_id: u128, name: String, from_seq: u64 },
    BranchSelected { branch_id: u128, head_seq: u64 },
    BranchSummary { branch_id: u128, from_seq: u64, summary: String, summary_model: String },
    SessionArchived,
}

/// How a session began.
#[derive(Debug)]
pub struct SessionCreated {
    pub title: String,
    pub workspace: String,
    pub model: String,
    pub model_id: String,
    pub created_at: i128,
    pub parent_session_id: Option<SessionId>,
}

/// The name of an event's kind in the log.
pub open spec fn event_name(event: SessionEvent) -> Seq<char> {
    match event {
        SessionEvent::SessionCreated(_) => "session_created"@,
        SessionEvent::RuntimeStarted(_) => "runtime_started"@,
        SessionEvent::SkillActivated { .. } => "skill_activated"@,
        SessionEvent::SkillDeactivated { .. } => "skill_deactivated"@,
        SessionEvent::TitleChanged { .. } => "title_changed"@,
        SessionEvent::ModelChanged { .. } => "model_changed"@,
        SessionEvent::TurnStarted(_) => "turn_started"@,
        SessionEvent::AssistantCompleted(_) => "assistant_completed"@,
        SessionEvent::ToolStarted(_) => "tool_started"@,
        SessionEvent::ToolFinished(_) => "tool_finished"@,
        SessionEvent::TurnCompleted => "turn_completed"@,
        SessionEvent::TurnFailed(_) => "turn_failed"@,
        SessionEvent::TurnCancelled { .. } => "turn_cancelled"@,
        SessionEvent::TurnInterrupted { .. } => "turn_interrupted"@,
        SessionEvent::ContextReset { .. } => "context_reset"@,
        SessionEvent::ContextCompacted(_) => "context_compacted"@,
        SessionEvent::SessionForked { .. } => "session_forked"@,
        SessionEvent::BranchCreated { .. } => "branch_created"@,
        SessionEvent::BranchSelected { .. } => "branch_selected"@,
        SessionEvent::BranchSummary { .. } => "branch_summary"@,
        SessionEvent::SessionArchived => "session_archived"@,
    }
}

/// The name of an event's kind in the log.
pub fn event_type(event: &SessionEvent) -> (r: String)
    ensures
        r@ == event_name(*event),
{
    let name: &str = match event {
        SessionEvent::SessionCreated(_) => "session_created",
        SessionEvent::RuntimeStarted(_) => "runtime_started",
        SessionEvent::SkillActivated { .. } => "skill_activated",
        SessionEvent::SkillDeactivated { .. } => "skill_deactivated",
        SessionEvent::TitleChanged { .. } => "title_changed",
        SessionEvent::ModelChanged { .. } => "model_changed",
        SessionEvent::TurnStarted(_) => "turn_started",
        SessionEvent::AssistantCompleted(_) => "assistant_completed",
        SessionEvent::ToolStarted(_) => "tool_started",
        SessionEvent::ToolFinished(_) => "tool_finished",
        SessionEvent::TurnCompleted => "turn_completed",
        SessionEvent::TurnFailed(_) => "turn_failed",
        SessionEvent::TurnCancelled { .. } => "turn_cancelled",
        SessionEvent::TurnInterrupted { .. } => "turn_interrupted",
        SessionEvent::ContextReset { .. } => "context_reset",
        SessionEvent::ContextCompacted(_) => "context_compacted",
        SessionEvent::SessionForked { .. } => "session_forked",
        SessionEvent::BranchCreated { .. } => "branch_created",
        SessionEvent::BranchSelected { .. } => "branch_selected",
        SessionEvent::BranchSummary { .. } => "branch_summary",
        SessionEvent::SessionArchived => "session_archived",
    };
    name.to_owned()
}

} // verus!
