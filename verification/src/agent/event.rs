//! What an agent reports while it works.
use crate::agent::diagnostics::TurnDiagnostics;
use crate::session::model::TurnId;
use vstd::prelude::*;

verus! {

/// A report; arguments and results are compact JSON texts.
#[derive(Debug)]
#[allow(inconsistent_fields)]
pub enum AgentEvent {
    TurnStarted { turn_id: TurnId },
    TextDelta { turn_id: TurnId, message_id: u128, chunk: String, is_final: bool },
    ToolStarted { turn_id: TurnId, call_id: String, name: String, arguments: String },
    ToolFinished { turn_id: TurnId, call_id: String, name: String, result: String, success: bool },
    DiagnosticsUpdated { turn_id: TurnId, diagnostics: TurnDiagnostics },
    ApprovalRequired {
        turn_id: TurnId,
        request_id: String,
        call_id: String,
        tool_name: String,
        arguments: String,
    },
    TurnCompleted { turn_id: TurnId },
    Error { turn_id: Option<TurnId>, message: String, recoverable: bool },
}

/// The view of a report.
#[verifier::ext_equal]
#[allow(inconsistent_fields)]
pub enum AgentEventView {
    TurnStarted { turn_id: TurnId },
    TextDelta { turn_id: TurnId, message_id: u128, chunk: Seq<char>, is_final: bool },
    ToolStarted { turn_id: TurnId, call_id: Seq<char>, name: Seq<char>, arguments: Seq<char> },
    ToolFinished {
        turn_id: TurnId,
        call_id: Seq<char>,
        name: Seq<char>,
        result: Seq<char>,
        success: bool,
    },
    DiagnosticsUpdated { turn_id: TurnId, diagnostics: TurnDiagnostics },
    ApprovalRequired {
        turn_id: TurnId,
        request_id: Seq<char>,
        call_id: Seq<char>,
        tool_name: Seq<char>,
        arguments: Seq<char>,
    },
    TurnCompleted { turn_id: TurnId },
    Error { turn_id: Option<TurnId>, message: Seq<char>, recoverable: bool },
}

impl View for AgentEvent {
    type V = AgentEventView;

    open spec fn view(&self) -> AgentEventView {
        match *self {
            AgentEvent::TurnStarted { turn_id } => AgentEventView::TurnStarted { turn_id },
            AgentEvent::TextDelta { turn_id, message_id, chunk, is_final } =>
                AgentEventView::TextDelta { turn_id, message_id, chunk: chunk@, is_final },
            AgentEvent::ToolStarted { turn_id, call_id, name, arguments } =>
                AgentEventView::ToolStarted {
                turn_id,
                call_id: call_id@,
                name: name@,
                arguments: arguments@,
            },
            AgentEvent::ToolFinished { turn_id, call_id, name, result, success } =>
                AgentEventView::ToolFinished {
                turn_id,
                call_id: call_id@,
                name: name@,
                result: result@,
                success,
            },
            AgentEvent::DiagnosticsUpdated { turn_id, diagnostics } =>
                AgentEventView::DiagnosticsUpdated { turn_id, diagnostics },
            AgentEvent::ApprovalRequired { turn_id, request_id, call_id, tool_name, arguments } =>
                AgentEventView::ApprovalRequired {
                turn_id,
                request_id: request_id@,
                call_id: call_id@,
                tool_name: tool_name@,
                arguments: arguments@,
            },
            AgentEvent::TurnCompleted { turn_id } => AgentEventView::TurnCompleted { turn_id },
            AgentEvent::Error { turn_id, message, recoverable } => AgentEventView::Error {
                turn_id,
                message: message@,
                recoverable,
            },
        }
    }
}

impl Clone for AgentEvent {
    fn clone(&self) -> (r: Self)
        ensures
            r == *self,
    {
        match self {
            AgentEvent::TurnStarted { turn_id } => AgentEvent::TurnStarted { turn_id: *turn_id },
            AgentEvent::TextDelta { turn_id, message_id, chunk, is_final } => AgentEvent::TextDelta {
                turn_id: *turn_id,
                message_id: *message_id,
                chunk: chunk.clone(),
                is_final: *is_final,
            },
            AgentEvent::ToolStarted { turn_id, call_id, name, arguments } =>
                AgentEvent::ToolStarted {
                turn_id: *turn_id,
                call_id: call_id.clone(),
                name: name.clone(),
                arguments: arguments.clone(),
            },
            AgentEvent::ToolFinished { turn_id, call_id, name, result, success } =>
                AgentEvent::ToolFinished {
                turn_id: *turn_id,
                call_id: call_id.clone(),
                name: name.clone(),
                result: result.clone(),
                success: *success,
            },
            AgentEvent::DiagnosticsUpdated { turn_id, diagnostics } =>
                AgentEvent::DiagnosticsUpdated { turn_id: *turn_id, diagnostics: *diagnostics },
            AgentEvent::ApprovalRequired { turn_id, request_id, call_id, tool_name, arguments } =>
                AgentEvent::ApprovalRequired {
                turn_id: *turn_id,
                request_id: request_id.clone(),
                call_id: call_id.clone(),
                tool_name: tool_name.clone(),
                arguments: arguments.clone(),
            },
            AgentEvent::TurnCompleted { turn_id } => AgentEvent::TurnCompleted {
                turn_id: *turn_id,
            },
            AgentEvent::Error { turn_id, message, recoverable } => AgentEvent::Error {
                turn_id: *turn_id,
                message: message.clone(),
                recoverable: *recoverable,
            },
        }
    }
}

/// The views of a list of reports.
pub open spec fn event_views(events: Seq<AgentEvent>) -> Seq<AgentEventView> {
    events.map_values(|e: AgentEvent| e@)
}

pub proof fn lemma_events_push(events: Seq<AgentEvent>, e: AgentEvent)
    ensures
        event_views(events.push(e)) == event_views(events).push(e@),
{
    assert(event_views(events.push(e)) =~= event_views(events).push(e@));
}

} // verus!
